//! Telemetry: what a snapshot of the host holds, and how raw readings and the
//! output of outside tools become one.

use crate::number::{
    all_digits, decimal, decimal_padded, digits_value, padded_decimal_reads_back, parse_u64,
    parse_u64_spec, power_of_ten, to_decimal, to_decimal_padded,
};
use crate::rounding::{
    double_of, gb_hundredths, gb_hundredths_spec, percent_hundredths, percent_hundredths_spec,
    percentage_is_the_share, share_is_at_most_whole, size_hundredths,
    size_hundredths_spec, size_is_the_nearest_in_its_unit, thousandths, thousandths_are_kept,
    thousandths_spec,
};
use crate::text::{
    chars_of, contains, contains_spec, cutting_is_at_each_separator, cutting_undoes_joining, find,
    find_from, is_white_space, join, join_spec, lemma_find, lemma_find_is, lemma_trim_both, lines,
    lines_end_at_line_feeds, lines_spec, lowered, occurs_at, pattern_is_taken_out, put, remove_all,
    remove_all_spec, same_ignoring_case, same_ignoring_case_spec, split, split_spec, splitn,
    splitn_spec, string_of, strip_prefix, to_lower, trim, trim_both, trim_of, trim_start, trimmed,
    trimming_leaves_the_middle, trimming_takes_the_class_off, views, without_cr, words, words_spec,
    CharClass,
};
use vstd::prelude::*;

verus! {

// ─── Sizes ───────────────────────────────────────────────────────────────────

/// A number of hundredths, with two decimals.
pub open spec fn two_decimals(hundredths: nat) -> Seq<char> {
    decimal(hundredths / 100) + "."@ + decimal_padded(hundredths % 100, 2)
}

fn with_two_decimals(hundredths: u128) -> (res: String)
    ensures
        res@ == two_decimals(hundredths as nat),
{
    let mut res = to_decimal(hundredths / 100);
    res.append(".");
    res.append(to_decimal_padded(hundredths % 100, 2).as_str());
    res
}

/// A number of bytes as a person reads it, in the largest unit that is not
/// larger than it.
pub open spec fn size_text(bytes: nat) -> Seq<char> {
    if bytes < 0x400 {
        decimal(bytes) + " B"@
    } else if bytes < 0x10_0000 {
        two_decimals(size_hundredths_spec(bytes, 0x400)) + " KB"@
    } else if bytes < 0x4000_0000 {
        two_decimals(size_hundredths_spec(bytes, 0x10_0000)) + " MB"@
    } else if bytes < 0x100_0000_0000 {
        two_decimals(size_hundredths_spec(bytes, 0x4000_0000)) + " GB"@
    } else {
        two_decimals(size_hundredths_spec(bytes, 0x100_0000_0000)) + " TB"@
    }
}

fn write_size(bytes: u128) -> (res: String)
    requires
        bytes < 0x10_0000_0000_0000_0000_0000,
    ensures
        res@ == size_text(bytes as nat),
{
    let mut res;
    if bytes < 0x400 {
        res = to_decimal(bytes);
        res.append(" B");
    } else if bytes < 0x10_0000 {
        res = with_two_decimals(size_hundredths(bytes, 0x400));
        res.append(" KB");
    } else if bytes < 0x4000_0000 {
        res = with_two_decimals(size_hundredths(bytes, 0x10_0000));
        res.append(" MB");
    } else if bytes < 0x100_0000_0000 {
        res = with_two_decimals(size_hundredths(bytes, 0x4000_0000));
        res.append(" GB");
    } else {
        res = with_two_decimals(size_hundredths(bytes, 0x100_0000_0000));
        res.append(" TB");
    }
    res
}

/// Writes a number of bytes as a person reads it.
pub fn format_dynamic_size(bytes: u64) -> (res: String)
    ensures
        res@ == size_text(bytes as nat),
{
    write_size(bytes as u128)
}

/// The size of a telemetry cache that holds nothing.
pub fn default_cached_telemetry_size() -> (res: String)
    ensures
        res@ == "0 B"@,
{
    "0 B".to_string()
}

/// What is said of an empty cache is what its size is written as.
pub proof fn default_size_is_the_size_of_nothing()
    ensures
        size_text(0) == "0 B"@,
{
    reveal_strlit("0 B");
    reveal_strlit(" B");
    assert(size_text(0) =~= "0 B"@);
}

// ─── CPU ─────────────────────────────────────────────────────────────────────

/// What is known of a CPU.
#[derive(Debug)]
pub struct CpuInfo {
    /// Cleaned model name, such as "Intel Xeon E5-2680 v4".
    pub model: String,
    /// Number of physical cores.
    pub cores: u32,
    /// Number of threads.
    pub threads: u32,
    /// Base frequency in MHz.
    pub frequency_mhz: u64,
    /// All of it in one line, such as "Intel Xeon E5-2680 v4 @ 4x 2.397GHz".
    pub display: String,
}

impl Clone for CpuInfo {
    fn clone(&self) -> (res: CpuInfo)
        ensures
            res == *self,
    {
        CpuInfo {
            model: self.model.clone(),
            cores: self.cores,
            threads: self.threads,
            frequency_mhz: self.frequency_mhz,
            display: self.display.clone(),
        }
    }
}

/// A brand string without trademark signs and words that say nothing.
pub open spec fn without_noise(brand: Seq<char>) -> Seq<char> {
    let s = remove_all_spec(brand, "(R)"@);
    let s = remove_all_spec(s, "(TM)"@);
    let s = remove_all_spec(s, "(r)"@);
    let s = remove_all_spec(s, "(tm)"@);
    let s = remove_all_spec(s, "CPU "@);
    remove_all_spec(s, "Processor"@)
}

/// The model name in a brand string: without noise, with single spaces between
/// its words, and without the frequency that follows an `@`.
pub open spec fn model_name(brand: Seq<char>) -> Seq<char> {
    let s = join_spec(words_spec(without_noise(brand)), " "@);
    trimmed(s.take(find(s, CharClass::Just('@')) as int))
}

/// Strips trademark noise and redundant words from a brand string.
pub fn clean_cpu_brand(brand: &str) -> (res: String)
    ensures
        res@ == model_name(brand@),
{
    proof {
        reveal_strlit("(R)");
        reveal_strlit("(TM)");
        reveal_strlit("(r)");
        reveal_strlit("(tm)");
        reveal_strlit("CPU ");
        reveal_strlit("Processor");
    }
    let s = remove_all(brand, "(R)");
    let s = remove_all(s.as_str(), "(TM)");
    let s = remove_all(s.as_str(), "(r)");
    let s = remove_all(s.as_str(), "(tm)");
    let s = remove_all(s.as_str(), "CPU ");
    let s = remove_all(s.as_str(), "Processor");
    let s = join(&words(s.as_str()), " ");
    let chars = chars_of(s.as_str());
    assert(chars@.skip(0) =~= chars@);
    let end: usize = find_from(&chars, 0, CharClass::Just('@'));
    assert(chars@.subrange(0, end as int) =~= s@.take(end as int));
    trim(string_of(&chars, 0, end).as_str())
}

/// One logical CPU, as the system reports it.
pub struct CpuReading {
    pub brand: String,
    /// In MHz.
    pub frequency: u64,
}

/// A number of thousandths, with three decimals.
pub open spec fn three_decimals(thousandths: nat) -> Seq<char> {
    decimal(thousandths / 1000) + "."@ + decimal_padded(thousandths % 1000, 3)
}

/// Whether `found` describes the CPU, as the first of the logical CPUs names
/// it. There is nothing to say if it has no name.
pub open spec fn describes_cpu(
    cpus: Seq<CpuReading>,
    physical_cores: Option<usize>,
    found: Option<CpuInfo>,
) -> bool {
    match found {
        Some(info) => {
            &&& cpus.len() > 0
            &&& cpus[0].brand@.len() > 0
            &&& info.model@ == model_name(cpus[0].brand@)
            &&& info.threads == cpus.len() as u32
            &&& info.cores == match physical_cores {
                Some(n) => n as u32,
                None => info.threads,
            }
            &&& info.frequency_mhz == cpus[0].frequency
            &&& info.display@ == info.model@ + " @ "@ + decimal(info.cores as nat) + "x "@
                + three_decimals(thousandths_spec(info.frequency_mhz as nat)) + "GHz"@
        },
        None => cpus.len() == 0 || cpus[0].brand@.len() == 0,
    }
}

/// Describes the CPU.
pub fn build_cpu_info(cpus: &Vec<CpuReading>, physical_cores: Option<usize>) -> (res: Option<
    CpuInfo,
>)
    ensures
        describes_cpu(cpus@, physical_cores, res),
{
    if cpus.len() == 0 {
        return None;
    }
    if cpus[0].brand.as_str().is_empty() {
        return None;
    }
    let model = clean_cpu_brand(cpus[0].brand.as_str());
    let threads: u32 = cpus.len() as u32;
    let cores: u32 = match physical_cores {
        Some(n) => n as u32,
        None => threads,
    };
    let frequency_mhz: u64 = cpus[0].frequency;
    let frequency: u128 = thousandths(frequency_mhz);
    let mut display = model.clone();
    display.append(" @ ");
    display.append(to_decimal(cores as u128).as_str());
    display.append("x ");
    display.append(to_decimal(frequency / 1000).as_str());
    display.append(".");
    display.append(to_decimal_padded(frequency % 1000, 3).as_str());
    display.append("GHz");
    proof {
        let start = model@ + " @ "@ + decimal(cores as nat) + "x "@;
        let t = frequency as nat;
        assert(start + decimal(t / 1000) + "."@ + decimal_padded(t % 1000, 3) =~= start
            + three_decimals(t));
    }
    Some(CpuInfo { model, cores, threads, frequency_mhz, display })
}

// ─── Operating system ────────────────────────────────────────────────────────

/// What an `os-release` file calls the system: the value of the first line
/// that sets `PRETTY_NAME`, without quotes around it.
pub open spec fn pretty_name(lines: Seq<Seq<char>>) -> Option<Seq<char>>
    decreases lines.len(),
{
    if lines.len() == 0 {
        None
    } else if occurs_at(lines[0], "PRETTY_NAME="@, 0) {
        Some(trim_both(lines[0].skip("PRETTY_NAME="@.len() as int), CharClass::Just('"')))
    } else {
        pretty_name(lines.drop_first())
    }
}

/// An optional text, as a value.
pub open spec fn option_view(text: Option<String>) -> Option<Seq<char>> {
    match text {
        Some(text) => Some(text@),
        None => None,
    }
}

/// Reads the name of the system from an `os-release` file.
pub fn parse_os_release(content: &str) -> (res: Option<String>)
    ensures
        option_view(res) == pretty_name(lines_spec(content@)),
{
    let all = lines(content);
    let mut i: usize = 0;
    assert(views(all@).skip(0) =~= views(all@));
    while i < all.len()
        invariant
            i <= all@.len(),
            pretty_name(lines_spec(content@)) == pretty_name(views(all@).skip(i as int)),
        decreases all@.len() - i,
    {
        let ghost rest = views(all@).skip(i as int);
        assert(rest[0] == all@[i as int]@);
        assert(rest.drop_first() =~= views(all@).skip(i + 1));
        if let Some(value) = strip_prefix(all[i].as_str(), "PRETTY_NAME=") {
            return Some(trim_of(value.as_str(), CharClass::Just('"')));
        }
        i += 1;
    }
    None
}

/// The name of the system and, if there is one, its version.
pub open spec fn system_name(name: Option<Seq<char>>, version: Option<Seq<char>>) -> Option<
    Seq<char>,
> {
    match name {
        Some(name) => match version {
            Some(version) if version.len() > 0 => Some(name + " "@ + version),
            _ => Some(name),
        },
        None => None,
    }
}

/// Names the system after what it says of itself.
pub fn parse_sysinfo_os(name: Option<String>, version: Option<String>) -> (res: Option<String>)
    ensures
        option_view(res) == system_name(option_view(name), option_view(version)),
{
    let mut res = match name {
        Some(name) => name,
        None => return None,
    };
    if let Some(version) = version {
        if !version.as_str().is_empty() {
            res.append(" ");
            res.append(version.as_str());
        }
    }
    Some(res)
}

/// The name of the system: what its `os-release` file calls it, if there is
/// one and it does, otherwise what the system says of itself.
pub open spec fn os_name(
    os_release: Option<Seq<char>>,
    name: Option<Seq<char>>,
    version: Option<Seq<char>>,
) -> Option<Seq<char>> {
    match os_release {
        Some(content) => match pretty_name(lines_spec(content)) {
            Some(pretty) => Some(pretty),
            None => system_name(name, version),
        },
        None => system_name(name, version),
    }
}

/// Names the system.
pub fn collect_os_info(
    os_release: Option<String>,
    name: Option<String>,
    version: Option<String>,
) -> (res: Option<String>)
    ensures
        option_view(res) == os_name(
            option_view(os_release),
            option_view(name),
            option_view(version),
        ),
{
    if let Some(content) = os_release {
        if let Some(pretty) = parse_os_release(content.as_str()) {
            return Some(pretty);
        }
    }
    parse_sysinfo_os(name, version)
}

// ─── Memory and disks ────────────────────────────────────────────────────────

/// How much memory is in use. All numbers are in hundredths.
#[derive(Debug)]
pub struct MemoryStats {
    /// In hundredths of a percent.
    pub usage: u128,
    pub used_gb: u128,
    pub total_gb: u128,
}

/// What part of `total` is `used`, in hundredths of a percent; nothing if
/// there is no total.
pub open spec fn usage_of(used: nat, total: nat) -> nat {
    if total > 0 {
        percent_hundredths_spec(used, total)
    } else {
        0
    }
}

fn usage(used: u64, total: u64) -> (res: u128)
    ensures
        res == usage_of(used as nat, total as nat),
{
    if total > 0 {
        percent_hundredths(used, total)
    } else {
        0
    }
}

/// Describes how much memory is in use.
pub fn build_memory_stats(total_mem: u64, used_mem: u64) -> (res: MemoryStats)
    ensures
        res.usage == usage_of(used_mem as nat, total_mem as nat),
        res.used_gb == gb_hundredths_spec(used_mem as nat),
        res.total_gb == gb_hundredths_spec(total_mem as nat),
{
    MemoryStats {
        usage: usage(used_mem, total_mem),
        used_gb: gb_hundredths(used_mem),
        total_gb: gb_hundredths(total_mem),
    }
}

/// A disk, as the system reports it.
pub struct DiskReading {
    pub name: String,
    pub file_system: String,
    pub mount_point: String,
    pub total_space: u64,
    pub available_space: u64,
}

/// How full a disk is.
#[derive(Debug)]
pub struct DiskStats {
    pub name: String,
    /// In hundredths of a percent.
    pub usage: u128,
    pub used_size: String,
    pub total_size: String,
}

pub struct DiskView {
    pub name: Seq<char>,
    pub usage: nat,
    pub used_size: Seq<char>,
    pub total_size: Seq<char>,
}

impl View for DiskStats {
    type V = DiskView;

    open spec fn view(&self) -> DiskView {
        DiskView {
            name: self.name@,
            usage: self.usage as nat,
            used_size: self.used_size@,
            total_size: self.total_size@,
        }
    }
}

/// Whether a disk is worth a report: it has room, and is neither an overlay
/// nor of one of the file systems that keep nothing.
pub open spec fn is_reported(disk: DiskReading) -> bool {
    let fs = disk.file_system@;
    &&& disk.total_space > 0
    &&& !same_ignoring_case_spec(disk.name@, "overlay"@)
    &&& !same_ignoring_case_spec(fs, "overlay"@)
    &&& !same_ignoring_case_spec(fs, "tmpfs"@)
    &&& !same_ignoring_case_spec(fs, "devtmpfs"@)
    &&& !same_ignoring_case_spec(fs, "squashfs"@)
    &&& !same_ignoring_case_spec(fs, "efivarfs"@)
    &&& !same_ignoring_case_spec(fs, "autofs"@)
}

/// Whether a disk is worth a report.
pub fn should_report_disk(disk: &DiskReading) -> (res: bool)
    ensures
        res == is_reported(*disk),
{
    if disk.total_space == 0 {
        return false;
    }
    let name = disk.name.as_str();
    let fs = disk.file_system.as_str();
    if same_ignoring_case(name, "overlay") || same_ignoring_case(fs, "overlay") {
        return false;
    }
    !same_ignoring_case(fs, "tmpfs") && !same_ignoring_case(fs, "devtmpfs")
        && !same_ignoring_case(fs, "squashfs") && !same_ignoring_case(fs, "efivarfs")
        && !same_ignoring_case(fs, "autofs")
}

/// The name of a disk; where it has none, the place it is mounted at.
pub fn disk_display_name(disk: &DiskReading) -> (res: String)
    ensures
        res@ == if disk.name@.len() > 0 {
            disk.name@
        } else {
            disk.mount_point@
        },
{
    if !disk.name.as_str().is_empty() {
        return disk.name.clone();
    }
    disk.mount_point.clone()
}

/// What is not available on a disk.
pub open spec fn used_space(disk: DiskReading) -> nat {
    if disk.available_space <= disk.total_space {
        (disk.total_space - disk.available_space) as nat
    } else {
        0
    }
}

/// What is said of a disk.
pub open spec fn disk_view(disk: DiskReading) -> DiskView {
    DiskView {
        name: if disk.name@.len() > 0 {
            disk.name@
        } else {
            disk.mount_point@
        },
        usage: percent_hundredths_spec(used_space(disk), disk.total_space as nat),
        used_size: size_text(used_space(disk)),
        total_size: size_text(disk.total_space as nat),
    }
}

fn disk_to_stats(disk: &DiskReading) -> (res: DiskStats)
    requires
        disk.total_space > 0,
    ensures
        res@ == disk_view(*disk),
{
    let total: u64 = disk.total_space;
    let used: u64 = if disk.available_space <= total {
        total - disk.available_space
    } else {
        0
    };
    DiskStats {
        name: disk_display_name(disk),
        usage: percent_hundredths(used, total),
        used_size: format_dynamic_size(used),
        total_size: format_dynamic_size(total),
    }
}

/// What is said of the disks that are worth a report, in their order.
pub open spec fn disk_views(disks: Seq<DiskReading>) -> Seq<DiskView> {
    disks.filter(|d: DiskReading| is_reported(d)).map_values(|d: DiskReading| disk_view(d))
}

/// The views of a list of disks.
pub open spec fn stats_views(stats: Seq<DiskStats>) -> Seq<DiskView> {
    stats.map_values(|d: DiskStats| d@)
}

/// Describes the disks that are worth a report.
pub fn build_disk_stats(disks: &Vec<DiskReading>) -> (res: Vec<DiskStats>)
    ensures
        stats_views(res@) == disk_views(disks@),
{
    let mut res: Vec<DiskStats> = Vec::new();
    let mut i: usize = 0;
    proof {
        reveal(Seq::filter);
        assert(disks@.take(0) =~= Seq::<DiskReading>::empty());
        assert(stats_views(res@) =~= disk_views(disks@.take(0)));
    }
    while i < disks.len()
        invariant
            i <= disks@.len(),
            stats_views(res@) == disk_views(disks@.take(i as int)),
        decreases disks@.len() - i,
    {
        let ghost before = res@;
        let ghost seen = disks@.take(i as int);
        if should_report_disk(&disks[i]) {
            res.push(disk_to_stats(&disks[i]));
            assert(stats_views(res@) =~= stats_views(before).push(disk_view(disks@[i as int])));
        }
        proof {
            let d = disks@[i as int];
            assert(disks@.take(i + 1) =~= seen.push(d));
            assert(disks@.take(i + 1).drop_last() =~= seen);
            reveal(Seq::filter);
            assert(disk_views(disks@.take(i + 1)) =~= if is_reported(d) {
                disk_views(seen).push(disk_view(d))
            } else {
                disk_views(seen)
            });
        }
        i += 1;
    }
    assert(disks@.take(i as int) =~= disks@);
    res
}

// ─── Tools that are asked ────────────────────────────────────────────────────

/// A tool that does not answer within this many seconds has nothing to say.
pub const TOOL_TIMEOUT: u64 = 5;

/// A tool that reports on GPUs or containers.
pub enum Tool {
    NvidiaSmi,
    RocmSmi,
    Docker,
}

impl Tool {
    /// The name of the program.
    pub fn program(&self) -> (res: &'static str)
        ensures
            res@ == match self {
                Tool::NvidiaSmi => "nvidia-smi"@,
                Tool::RocmSmi => "rocm-smi"@,
                Tool::Docker => "docker"@,
            },
    {
        match self {
            Tool::NvidiaSmi => "nvidia-smi",
            Tool::RocmSmi => "rocm-smi",
            Tool::Docker => "docker",
        }
    }

    /// The arguments that it is run with.
    pub fn args(&self) -> (res: Vec<String>)
        ensures
            views(res@) == match self {
                Tool::NvidiaSmi => seq![
                    "--query-gpu=name,utilization.gpu,memory.used,memory.total"@,
                    "--format=csv,noheader,nounits"@,
                ],
                Tool::RocmSmi => seq![
                    "--showuse"@,
                    "--showmemuse"@,
                    "--showproductname"@,
                    "--csv"@,
                ],
                Tool::Docker => seq!["ps"@, "-a"@, "--format"@, "{{json .}}"@],
            },
    {
        let mut args: Vec<String> = Vec::new();
        match self {
            Tool::NvidiaSmi => {
                put(&mut args, "--query-gpu=name,utilization.gpu,memory.used,memory.total");
                put(&mut args, "--format=csv,noheader,nounits");
            },
            Tool::RocmSmi => {
                put(&mut args, "--showuse");
                put(&mut args, "--showmemuse");
                put(&mut args, "--showproductname");
                put(&mut args, "--csv");
            },
            Tool::Docker => {
                put(&mut args, "ps");
                put(&mut args, "-a");
                put(&mut args, "--format");
                put(&mut args, "{{json .}}");
            },
        }
        args
    }
}

/// The items that were found, in their order.
pub open spec fn kept<T>(found: Seq<Option<T>>) -> Seq<T>
    decreases found.len(),
{
    if found.len() == 0 {
        seq![]
    } else {
        match found.last() {
            Some(item) => kept(found.drop_last()).push(item),
            None => kept(found.drop_last()),
        }
    }
}

// ─── GPUs ────────────────────────────────────────────────────────────────────

/// A percentage: one that was computed, in hundredths of a percent, or one
/// that a tool measured.
#[derive(Debug)]
pub enum Percent<F> {
    Hundredths(u128),
    Measured(F),
}

pub enum PercentView<F> {
    Hundredths(nat),
    Measured(F),
}

impl<F> View for Percent<F> {
    type V = PercentView<F>;

    open spec fn view(&self) -> PercentView<F> {
        match self {
            Percent::Hundredths(n) => PercentView::Hundredths(*n as nat),
            Percent::Measured(x) => PercentView::Measured(*x),
        }
    }
}

/// A GPU and how busy it is. Measured numbers have the type `F`.
#[derive(Debug)]
pub struct GpuInfo<F> {
    pub name: String,
    /// Core usage in percent.
    pub usage: F,
    /// VRAM in use, such as "4.73 GB".
    pub vram_used: String,
    /// VRAM in all, such as "16.00 GB".
    pub vram_total: String,
    /// VRAM usage.
    pub vram_usage: Percent<F>,
}

pub struct GpuView<F> {
    pub name: Seq<char>,
    pub usage: F,
    pub vram_used: Seq<char>,
    pub vram_total: Seq<char>,
    pub vram_usage: PercentView<F>,
}

impl<F> View for GpuInfo<F> {
    type V = GpuView<F>;

    open spec fn view(&self) -> GpuView<F> {
        GpuView {
            name: self.name@,
            usage: self.usage,
            vram_used: self.vram_used@,
            vram_total: self.vram_total@,
            vram_usage: self.vram_usage@,
        }
    }
}

/// An optional GPU, as a value.
pub open spec fn gpu_option_view<F>(gpu: Option<GpuInfo<F>>) -> Option<GpuView<F>> {
    match gpu {
        Some(gpu) => Some(gpu@),
        None => None,
    }
}

/// The views of a list of GPUs.
pub open spec fn gpu_views<F>(gpus: Seq<GpuInfo<F>>) -> Seq<GpuView<F>> {
    gpus.map_values(|g: GpuInfo<F>| g@)
}

/// A row of what `nvidia-smi` prints, before its usage is read as a number.
pub struct NvidiaRow {
    pub name: String,
    pub usage: String,
    pub used_mib: u64,
    pub total_mib: u64,
}

pub struct NvidiaRowView {
    pub name: Seq<char>,
    pub usage: Seq<char>,
    pub used_mib: u64,
    pub total_mib: u64,
}

impl View for NvidiaRow {
    type V = NvidiaRowView;

    open spec fn view(&self) -> NvidiaRowView {
        NvidiaRowView {
            name: self.name@,
            usage: self.usage@,
            used_mib: self.used_mib,
            total_mib: self.total_mib,
        }
    }
}

/// The row on a line: a name, a usage and two whole numbers, with commas
/// between them.
pub open spec fn nvidia_row_on(line: Seq<char>) -> Option<NvidiaRowView> {
    let parts = splitn_spec(line, 4, ',');
    if parts.len() == 4 {
        match (parse_u64_spec(trimmed(parts[2])), parse_u64_spec(trimmed(parts[3]))) {
            (Some(used_mib), Some(total_mib)) => Some(
                NvidiaRowView {
                    name: trimmed(parts[0]),
                    usage: trimmed(parts[1]),
                    used_mib,
                    total_mib,
                },
            ),
            _ => None,
        }
    } else {
        None
    }
}

/// Reads the row on a line.
pub fn nvidia_row(line: &str) -> (res: Option<NvidiaRow>)
    ensures
        match res {
            Some(row) => nvidia_row_on(line@) == Some(row@),
            None => nvidia_row_on(line@) is None,
        },
{
    let parts = splitn(line, 4, ',');
    assert(parts@.len() == views(parts@).len());
    if parts.len() != 4 {
        return None;
    }
    assert(forall|i: int| 0 <= i < 4 ==> views(parts@)[i] == (#[trigger] parts@[i])@);
    let name = trim(parts[0].as_str());
    let usage = trim(parts[1].as_str());
    match (parse_u64(trim(parts[2].as_str()).as_str()), parse_u64(trim(parts[3].as_str()).as_str())) {
        (Some(used_mib), Some(total_mib)) => Some(NvidiaRow { name, usage, used_mib, total_mib }),
        _ => None,
    }
}

/// What a row says of a GPU, once its usage is read; nothing if the usage is
/// no number.
pub open spec fn nvidia_gpu_of<F>(row: NvidiaRowView, usage: Option<F>) -> Option<GpuView<F>> {
    match usage {
        Some(usage) => Some(
            GpuView {
                name: row.name,
                usage,
                vram_used: size_text((row.used_mib * 0x10_0000) as nat),
                vram_total: size_text((row.total_mib * 0x10_0000) as nat),
                vram_usage: PercentView::Hundredths(
                    usage_of(row.used_mib as nat, row.total_mib as nat),
                ),
            },
        ),
        None => None,
    }
}

/// Describes the GPU of a row whose usage was read.
pub fn nvidia_gpu<F>(row: NvidiaRow, usage: Option<F>) -> (res: Option<GpuInfo<F>>)
    ensures
        gpu_option_view(res) == nvidia_gpu_of(row@, usage),
{
    match usage {
        Some(measured) => Some(
            GpuInfo {
                name: row.name,
                usage: measured,
                vram_used: write_size(row.used_mib as u128 * 0x10_0000),
                vram_total: write_size(row.total_mib as u128 * 0x10_0000),
                vram_usage: Percent::Hundredths(self::usage(row.used_mib, row.total_mib)),
            },
        ),
        None => None,
    }
}

/// Whether `found` is what a line of `nvidia-smi` says, given how numbers are
/// read.
pub open spec fn is_nvidia_reading<F, R: Fn(&str) -> Option<F>>(
    line: Seq<char>,
    read: R,
    found: Option<GpuView<F>>,
) -> bool {
    match nvidia_row_on(line) {
        Some(row) => exists|text: &str, usage: Option<F>|
            {
                &&& text@ == row.usage
                &&& #[trigger] call_ensures(read, (text,), usage)
                &&& found == nvidia_gpu_of(row, usage)
            },
        None => found is None,
    }
}

/// Reads a line of what `nvidia-smi` prints; `read` reads a number.
pub fn parse_nvidia_smi_line<F, R: Fn(&str) -> Option<F>>(line: &str, read: &R) -> (res: Option<
    GpuInfo<F>,
>)
    requires
        forall|text: &str| #[trigger] call_requires(*read, (text,)),
    ensures
        is_nvidia_reading(line@, *read, gpu_option_view(res)),
{
    match nvidia_row(line) {
        Some(row) => {
            let usage = read(row.usage.as_str());
            nvidia_gpu(row, usage)
        },
        None => None,
    }
}

/// Whether `found` is, line by line, what `nvidia-smi` says.
pub open spec fn are_nvidia_readings<F, R: Fn(&str) -> Option<F>>(
    lines: Seq<Seq<char>>,
    read: R,
    found: Seq<Option<GpuView<F>>>,
) -> bool {
    &&& found.len() == lines.len()
    &&& forall|i: int|
        0 <= i < lines.len() ==> is_nvidia_reading(#[trigger] lines[i], read, found[i])
}

/// Reads what `nvidia-smi` prints; `read` reads a number.
pub fn parse_nvidia_smi<F, R: Fn(&str) -> Option<F>>(text: &str, read: &R) -> (res: Vec<
    GpuInfo<F>,
>)
    requires
        forall|text: &str| #[trigger] call_requires(*read, (text,)),
    ensures
        exists|found: Seq<Option<GpuView<F>>>|
            {
                &&& #[trigger] are_nvidia_readings(lines_spec(text@), *read, found)
                &&& gpu_views(res@) == kept(found)
            },
{
    let all = lines(text);
    let mut res: Vec<GpuInfo<F>> = Vec::new();
    let ghost mut found: Seq<Option<GpuView<F>>> = seq![];
    let mut i: usize = 0;
    assert(gpu_views(res@) =~= kept(found));
    while i < all.len()
        invariant
            i <= all@.len(),
            views(all@) == lines_spec(text@),
            forall|text: &str| #[trigger] call_requires(*read, (text,)),
            found.len() == i,
            forall|j: int|
                0 <= j < i ==> is_nvidia_reading(#[trigger] views(all@)[j], *read, found[j]),
            gpu_views(res@) == kept(found),
        decreases all@.len() - i,
    {
        let ghost before = found;
        let ghost gpus = res@;
        let ghost line = views(all@)[i as int];
        assert(line == all@[i as int]@);
        let here = parse_nvidia_smi_line(all[i].as_str(), read);
        proof {
            found = before.push(gpu_option_view(here));
            assert(found.drop_last() =~= before);
            assert(forall|j: int| 0 <= j < i ==> found[j] == before[j]);
        }
        if let Some(gpu) = here {
            res.push(gpu);
            assert(gpu_views(res@) =~= gpu_views(gpus).push(gpu@));
        }
        i += 1;
    }
    assert(are_nvidia_readings(lines_spec(text@), *read, found));
    res
}

/// Which columns of a table hold what is wanted of a GPU.
pub struct RocmColumns {
    pub name: usize,
    pub usage: usize,
    pub memory: usize,
}

/// The first of the columns whose heading holds `keyword`, in whatever case;
/// their number if none does.
pub open spec fn column(columns: Seq<Seq<char>>, keyword: Seq<char>) -> nat
    decreases columns.len(),
{
    if columns.len() == 0 || contains_spec(lowered(columns[0]), keyword) {
        0
    } else {
        1 + column(columns.drop_first(), keyword)
    }
}

fn find_column(columns: &Vec<String>, keyword: &str) -> (res: Option<usize>)
    ensures
        match res {
            Some(i) => i == column(views(columns@), keyword@) && i < columns@.len(),
            None => column(views(columns@), keyword@) == columns@.len(),
        },
{
    let mut i: usize = 0;
    assert(views(columns@).skip(0) =~= views(columns@));
    while i < columns.len()
        invariant
            i <= columns@.len(),
            column(views(columns@), keyword@) == i + column(
                views(columns@).skip(i as int),
                keyword@,
            ),
        decreases columns@.len() - i,
    {
        let ghost rest = views(columns@).skip(i as int);
        assert(rest[0] == columns@[i as int]@);
        assert(rest.drop_first() =~= views(columns@).skip(i + 1));
        if contains(to_lower(columns[i].as_str()).as_str(), keyword) {
            return Some(i);
        }
        i += 1;
    }
    None
}

/// Where a heading puts what is wanted; there is nothing to read if it lacks
/// one of the three columns. (No capital outside ASCII has a letter of the
/// keywords as its small letter, so ASCII letters are all that case concerns.)
pub open spec fn columns_in(header: Seq<char>) -> Option<RocmColumns> {
    let columns = split_spec(header, ',');
    let name = column(columns, "card"@);
    let usage = column(columns, "gpu use"@);
    let memory = column(columns, "gpu memory use"@);
    if name < columns.len() && usage < columns.len() && memory < columns.len() {
        Some(RocmColumns { name: name as usize, usage: usage as usize, memory: memory as usize })
    } else {
        None
    }
}

/// Reads a heading.
pub fn rocm_columns(header: &str) -> (res: Option<RocmColumns>)
    ensures
        res == columns_in(header@),
{
    let columns = split(header, ',');
    assert(views(columns@).len() == columns@.len());
    match (
        find_column(&columns, "card"),
        find_column(&columns, "gpu use"),
        find_column(&columns, "gpu memory use"),
    ) {
        (Some(name), Some(usage), Some(memory)) => Some(RocmColumns { name, usage, memory }),
        _ => None,
    }
}

/// A row of what `rocm-smi` prints, before its numbers are read.
pub struct RocmRow {
    pub name: String,
    pub usage: String,
    pub memory: String,
}

pub struct RocmRowView {
    pub name: Seq<char>,
    pub usage: Seq<char>,
    pub memory: Seq<char>,
}

impl View for RocmRow {
    type V = RocmRowView;

    open spec fn view(&self) -> RocmRowView {
        RocmRowView { name: self.name@, usage: self.usage@, memory: self.memory@ }
    }
}

/// The row on a line; there is none if the line has too few columns.
pub open spec fn rocm_row_on(line: Seq<char>, columns: RocmColumns) -> Option<RocmRowView> {
    let parts = split_spec(line, ',');
    if columns.name < parts.len() && columns.usage < parts.len() && columns.memory < parts.len() {
        Some(
            RocmRowView {
                name: trimmed(parts[columns.name as int]),
                usage: trimmed(parts[columns.usage as int]),
                memory: trimmed(parts[columns.memory as int]),
            },
        )
    } else {
        None
    }
}

/// Reads the row on a line.
pub fn rocm_row(line: &str, columns: &RocmColumns) -> (res: Option<RocmRow>)
    ensures
        match res {
            Some(row) => rocm_row_on(line@, *columns) == Some(row@),
            None => rocm_row_on(line@, *columns) is None,
        },
{
    let parts = split(line, ',');
    assert(views(parts@).len() == parts@.len());
    if columns.name >= parts.len() || columns.usage >= parts.len() || columns.memory
        >= parts.len() {
        return None;
    }
    assert(forall|i: int| 0 <= i < parts@.len() ==> views(parts@)[i] == (#[trigger] parts@[i])@);
    Some(
        RocmRow {
            name: trim(parts[columns.name].as_str()),
            usage: trim(parts[columns.usage].as_str()),
            memory: trim(parts[columns.memory].as_str()),
        },
    )
}

/// What a row says of a GPU, once its numbers are read; nothing if one of them
/// is no number.
pub open spec fn rocm_gpu_of<F>(
    row: RocmRowView,
    usage: Option<F>,
    memory: Option<F>,
) -> Option<GpuView<F>> {
    match (usage, memory) {
        (Some(usage), Some(memory)) => Some(
            GpuView {
                name: row.name,
                usage,
                vram_used: "N/A"@,
                vram_total: "N/A"@,
                vram_usage: PercentView::Measured(memory),
            },
        ),
        _ => None,
    }
}

/// Describes the GPU of a row whose numbers were read.
pub fn rocm_gpu<F>(row: RocmRow, usage: Option<F>, memory: Option<F>) -> (res: Option<GpuInfo<F>>)
    ensures
        gpu_option_view(res) == rocm_gpu_of(row@, usage, memory),
{
    match (usage, memory) {
        (Some(usage), Some(memory)) => Some(
            GpuInfo {
                name: row.name,
                usage,
                vram_used: "N/A".to_string(),
                vram_total: "N/A".to_string(),
                vram_usage: Percent::Measured(memory),
            },
        ),
        _ => None,
    }
}

/// Whether `found` is what a line of `rocm-smi` says, given how numbers are
/// read.
pub open spec fn is_rocm_reading<F, R: Fn(&str) -> Option<F>, S: Fn(&str) -> Option<F>>(
    line: Seq<char>,
    columns: RocmColumns,
    read: R,
    read_rounded: S,
    found: Option<GpuView<F>>,
) -> bool {
    match rocm_row_on(line, columns) {
        Some(row) => exists|t: &str, usage: Option<F>, u: &str, memory: Option<F>|
            {
                &&& t@ == row.usage
                &&& u@ == row.memory
                &&& #[trigger] call_ensures(read, (t,), usage)
                &&& #[trigger] call_ensures(read_rounded, (u,), memory)
                &&& found == rocm_gpu_of(row, usage, memory)
            },
        None => found is None,
    }
}

/// Whether `found` is, line by line, what `rocm-smi` says below the heading.
pub open spec fn are_rocm_readings<F, R: Fn(&str) -> Option<F>, S: Fn(&str) -> Option<F>>(
    lines: Seq<Seq<char>>,
    columns: RocmColumns,
    read: R,
    read_rounded: S,
    found: Seq<Option<GpuView<F>>>,
) -> bool {
    &&& found.len() == lines.len()
    &&& forall|i: int|
        0 <= i < lines.len() ==> is_rocm_reading(
            #[trigger] lines[i],
            columns,
            read,
            read_rounded,
            found[i],
        )
}

/// The columns of a table with a heading.
pub open spec fn table_columns(lines: Seq<Seq<char>>) -> Option<RocmColumns> {
    if lines.len() > 0 {
        columns_in(lines[0])
    } else {
        None
    }
}

/// Reads what `rocm-smi` prints as a table with a heading; `read` reads a
/// number, `read_rounded` one that is kept to two decimals. The memory usage
/// is rounded, the core usage is not.
pub fn parse_rocm_smi_csv<F, R: Fn(&str) -> Option<F>, S: Fn(&str) -> Option<F>>(
    text: &str,
    read: &R,
    read_rounded: &S,
) -> (res: Vec<GpuInfo<F>>)
    requires
        forall|text: &str| #[trigger] call_requires(*read, (text,)),
        forall|text: &str| #[trigger] call_requires(*read_rounded, (text,)),
    ensures
        match table_columns(lines_spec(text@)) {
            Some(columns) => exists|found: Seq<Option<GpuView<F>>>|
                {
                    &&& #[trigger] are_rocm_readings(
                        lines_spec(text@).drop_first(),
                        columns,
                        *read,
                        *read_rounded,
                        found,
                    )
                    &&& gpu_views(res@) == kept(found)
                },
            None => res@.len() == 0,
        },
{
    let all = lines(text);
    let mut res: Vec<GpuInfo<F>> = Vec::new();
    assert(views(all@).len() == all@.len());
    if all.len() == 0 {
        return res;
    }
    assert(views(all@)[0] == all@[0]@);
    let columns = match rocm_columns(all[0].as_str()) {
        Some(columns) => columns,
        None => return res,
    };
    let ghost rows = views(all@).drop_first();
    let ghost mut found: Seq<Option<GpuView<F>>> = seq![];
    let mut i: usize = 1;
    assert(gpu_views(res@) =~= kept(found));
    while i < all.len()
        invariant
            1 <= i <= all@.len(),
            rows == views(all@).drop_first(),
            forall|text: &str| #[trigger] call_requires(*read, (text,)),
            forall|text: &str| #[trigger] call_requires(*read_rounded, (text,)),
            found.len() == i - 1,
            forall|j: int|
                0 <= j < i - 1 ==> is_rocm_reading(
                    #[trigger] rows[j],
                    columns,
                    *read,
                    *read_rounded,
                    found[j],
                ),
            gpu_views(res@) == kept(found),
        decreases all@.len() - i,
    {
        let ghost before = found;
        let ghost gpus = res@;
        let ghost line = rows[i - 1];
        assert(line == all@[i as int]@);
        let ghost mut here: Option<GpuView<F>> = None;
        if let Some(row) = rocm_row(all[i].as_str(), &columns) {
            let usage = read(row.usage.as_str());
            let memory = read_rounded(row.memory.as_str());
            proof {
                here = rocm_gpu_of(row@, usage, memory);
            }
            if let Some(gpu) = rocm_gpu(row, usage, memory) {
                res.push(gpu);
                assert(gpu_views(res@) =~= gpu_views(gpus).push(gpu@));
            }
        }
        proof {
            found = before.push(here);
            assert(found.drop_last() =~= before);
            assert(forall|j: int| 0 <= j < i - 1 ==> found[j] == before[j]);
            assert(is_rocm_reading(line, columns, *read, *read_rounded, found[i - 1]));
        }
        i += 1;
    }
    assert(are_rocm_readings(rows, columns, *read, *read_rounded, found));
    res
}

/// Whether `rocm-smi` is to be asked: `nvidia-smi` has found nothing.
pub fn asks_rocm<F>(nvidia: &Vec<GpuInfo<F>>) -> (res: bool)
    ensures
        res == (nvidia@.len() == 0),
{
    nvidia.len() == 0
}

// ─── Containers ──────────────────────────────────────────────────────────────

/// A container.
#[derive(Debug)]
pub struct DockerContainer {
    pub name: String,
    pub status: String,
    pub created: String,
    pub image: String,
    pub ports: String,
}

impl Clone for DockerContainer {
    fn clone(&self) -> (res: DockerContainer)
        ensures
            res == *self,
    {
        DockerContainer {
            name: self.name.clone(),
            status: self.status.clone(),
            created: self.created.clone(),
            image: self.image.clone(),
            ports: self.ports.clone(),
        }
    }
}

pub struct ContainerView {
    pub name: Seq<char>,
    pub status: Seq<char>,
    pub created: Seq<char>,
    pub image: Seq<char>,
    pub ports: Seq<char>,
}

impl View for DockerContainer {
    type V = ContainerView;

    open spec fn view(&self) -> ContainerView {
        ContainerView {
            name: self.name@,
            status: self.status@,
            created: self.created@,
            image: self.image@,
            ports: self.ports@,
        }
    }
}

/// One line of what `docker ps` prints, read as a document. What the document
/// lacks is empty here.
pub struct DockerPsRow {
    pub names: String,
    pub status: String,
    pub created_at: String,
    pub image: String,
    pub ports: String,
}

/// What stands for the ports of a container: a dash where it has none.
pub open spec fn ports_text(ports: Seq<char>) -> Seq<char> {
    if ports.len() == 0 {
        "—"@
    } else {
        ports
    }
}

/// Writes the ports of a container.
pub fn empty_ports_placeholder(ports: &str) -> (res: String)
    ensures
        res@ == ports_text(ports@),
{
    if ports.is_empty() {
        "—".to_string()
    } else {
        ports.to_string()
    }
}

/// The container that a row tells of; none if it is no row, or one without a
/// name.
pub open spec fn container_in(row: Option<DockerPsRow>) -> Option<ContainerView> {
    match row {
        Some(row) if row.names@.len() > 0 => Some(
            ContainerView {
                name: row.names@,
                status: row.status@,
                created: row.created_at@,
                image: row.image@,
                ports: ports_text(row.ports@),
            },
        ),
        _ => None,
    }
}

/// An optional container, as a value.
pub open spec fn container_option_view(container: Option<DockerContainer>) -> Option<
    ContainerView,
> {
    match container {
        Some(container) => Some(container@),
        None => None,
    }
}

/// The views of a list of containers.
pub open spec fn container_views(containers: Seq<DockerContainer>) -> Seq<ContainerView> {
    containers.map_values(|c: DockerContainer| c@)
}

/// Finds the container that a row tells of.
pub fn docker_container(row: Option<DockerPsRow>) -> (res: Option<DockerContainer>)
    ensures
        container_option_view(res) == container_in(row),
{
    let row = match row {
        Some(row) => row,
        None => return None,
    };
    if row.names.as_str().is_empty() {
        return None;
    }
    let ports = empty_ports_placeholder(row.ports.as_str());
    Some(
        DockerContainer {
            name: row.names,
            status: row.status,
            created: row.created_at,
            image: row.image,
            ports,
        },
    )
}

/// Whether `found` is what a line of `docker ps` says, given how documents are
/// read. A blank line says nothing.
pub open spec fn is_docker_reading<R: Fn(&str) -> Option<DockerPsRow>>(
    line: Seq<char>,
    read: R,
    found: Option<ContainerView>,
) -> bool {
    if trimmed(line).len() == 0 {
        found is None
    } else {
        exists|text: &str, row: Option<DockerPsRow>|
            {
                &&& text@ == trimmed(line)
                &&& #[trigger] call_ensures(read, (text,), row)
                &&& found == container_in(row)
            }
    }
}

/// Reads a line of what `docker ps` prints; `read` reads a document.
pub fn parse_docker_ps_line<R: Fn(&str) -> Option<DockerPsRow>>(line: &str, read: &R) -> (res:
    Option<DockerContainer>)
    requires
        forall|text: &str| #[trigger] call_requires(*read, (text,)),
    ensures
        is_docker_reading(line@, *read, container_option_view(res)),
{
    let text = trim(line);
    if text.as_str().is_empty() {
        return None;
    }
    docker_container(read(text.as_str()))
}

/// Whether `found` is, line by line, what `docker ps` says.
pub open spec fn are_docker_readings<R: Fn(&str) -> Option<DockerPsRow>>(
    lines: Seq<Seq<char>>,
    read: R,
    found: Seq<Option<ContainerView>>,
) -> bool {
    &&& found.len() == lines.len()
    &&& forall|i: int|
        0 <= i < lines.len() ==> is_docker_reading(#[trigger] lines[i], read, found[i])
}

/// The container on a line, where documents are read by `f`.
pub open spec fn container_on(
    line: Seq<char>,
    f: spec_fn(Seq<char>) -> Option<DockerPsRow>,
) -> Option<ContainerView> {
    if trimmed(line).len() == 0 {
        None
    } else {
        container_in(f(trimmed(line)))
    }
}

/// The containers that an output tells of, in their order, where documents are
/// read by `f`.
pub open spec fn docker_containers(
    text: Seq<char>,
    f: spec_fn(Seq<char>) -> Option<DockerPsRow>,
) -> Seq<ContainerView> {
    kept(lines_spec(text).map_values(|line: Seq<char>| container_on(line, f)))
}

/// Whether `read` reads each document as `f` does.
pub open spec fn reads_as<R: Fn(&str) -> Option<DockerPsRow>>(
    read: R,
    f: spec_fn(Seq<char>) -> Option<DockerPsRow>,
) -> bool {
    forall|text: &str, row: Option<DockerPsRow>| #[trigger]
        call_ensures(read, (text,), row) ==> row == f(text@)
}

proof fn lemma_reads_as<R: Fn(&str) -> Option<DockerPsRow>>(
    text: Seq<char>,
    read: R,
    found: Seq<Option<ContainerView>>,
    f: spec_fn(Seq<char>) -> Option<DockerPsRow>,
)
    requires
        reads_as(read, f),
        are_docker_readings(lines_spec(text), read, found),
    ensures
        kept(found) == docker_containers(text, f),
{
    let lines = lines_spec(text);
    let on = |line: Seq<char>| container_on(line, f);
    assert forall|i: int| 0 <= i < lines.len() implies found[i] == lines.map_values(on)[i] by {
        assert(is_docker_reading(lines[i], read, found[i]));
    }
    assert(found =~= lines.map_values(on));
}

/// Reads what `docker ps` prints; `read` reads a document.
pub fn parse_docker_ps_json<R: Fn(&str) -> Option<DockerPsRow>>(text: &str, read: &R) -> (res: Vec<
    DockerContainer,
>)
    requires
        forall|text: &str| #[trigger] call_requires(*read, (text,)),
    ensures
        exists|found: Seq<Option<ContainerView>>|
            {
                &&& #[trigger] are_docker_readings(lines_spec(text@), *read, found)
                &&& container_views(res@) == kept(found)
            },
        forall|f: spec_fn(Seq<char>) -> Option<DockerPsRow>| #[trigger]
            reads_as(*read, f) ==> container_views(res@) == docker_containers(text@, f),
{
    let all = lines(text);
    let mut res: Vec<DockerContainer> = Vec::new();
    let ghost mut found: Seq<Option<ContainerView>> = seq![];
    let mut i: usize = 0;
    assert(container_views(res@) =~= kept(found));
    while i < all.len()
        invariant
            i <= all@.len(),
            views(all@) == lines_spec(text@),
            forall|text: &str| #[trigger] call_requires(*read, (text,)),
            found.len() == i,
            forall|j: int|
                0 <= j < i ==> is_docker_reading(#[trigger] views(all@)[j], *read, found[j]),
            container_views(res@) == kept(found),
        decreases all@.len() - i,
    {
        let ghost before = found;
        let ghost containers = res@;
        let ghost line = views(all@)[i as int];
        assert(line == all@[i as int]@);
        let here = parse_docker_ps_line(all[i].as_str(), read);
        proof {
            found = before.push(container_option_view(here));
            assert(found.drop_last() =~= before);
            assert(forall|j: int| 0 <= j < i ==> found[j] == before[j]);
        }
        if let Some(container) = here {
            res.push(container);
            assert(container_views(res@) =~= container_views(containers).push(container@));
        }
        i += 1;
    }
    assert(are_docker_readings(lines_spec(text@), *read, found));
    proof {
        assert forall|f: spec_fn(Seq<char>) -> Option<DockerPsRow>| #[trigger]
            reads_as(*read, f) implies container_views(res@) == docker_containers(text@, f) by {
            lemma_reads_as(text@, *read, found, f);
        }
    }
    res
}

// ─── Snapshots ───────────────────────────────────────────────────────────────

/// All that is said of the CPU.
#[derive(Debug)]
pub struct Cpu<F> {
    /// Usage in percent, to two decimals.
    pub usage: F,
    pub info: Option<CpuInfo>,
}

/// How many tasks were waiting, on average over some minutes.
#[derive(Debug)]
pub struct LoadAverage<F> {
    pub one: F,
    pub five: F,
    pub fifteen: F,
}

/// The state of the host at one time. Measured numbers have the type `F`.
#[derive(Debug)]
pub struct TelemetrySnapshot<F> {
    /// In seconds since 1970.
    pub timestamp: u64,
    pub os: Option<String>,
    pub cpu: Cpu<F>,
    pub gpu: Vec<GpuInfo<F>>,
    pub memory: MemoryStats,
    pub disk: Vec<DiskStats>,
    pub containers: Vec<DockerContainer>,
    pub uptime_seconds: u64,
    pub load_average: LoadAverage<F>,
    /// The size of the stored snapshots, as a person reads it.
    pub cached_telemetry_size: String,
}

impl<F> TelemetrySnapshot<F> {
    /// Notes the size of the stored snapshots, in bytes.
    pub fn set_cached_telemetry_disk(&mut self, bytes: u64)
        ensures
            final(self).cached_telemetry_size@ == size_text(bytes as nat),
            final(self).timestamp == old(self).timestamp,
            final(self).os == old(self).os,
            final(self).cpu == old(self).cpu,
            final(self).gpu == old(self).gpu,
            final(self).memory == old(self).memory,
            final(self).disk == old(self).disk,
            final(self).containers == old(self).containers,
            final(self).uptime_seconds == old(self).uptime_seconds,
            final(self).load_average == old(self).load_average,
    {
        self.cached_telemetry_size = format_dynamic_size(bytes);
    }
}

/// What is read anew for each snapshot.
pub struct Readings<F> {
    /// In seconds since 1970.
    pub timestamp: u64,
    /// Usage in percent, to two decimals.
    pub cpu_usage: F,
    pub gpu: Vec<GpuInfo<F>>,
    pub total_memory: u64,
    pub used_memory: u64,
    pub disks: Vec<DiskReading>,
    pub containers: Vec<DockerContainer>,
    pub uptime_seconds: u64,
    pub load_average: LoadAverage<F>,
}

/// What is read once, when the agent starts.
pub struct HostReadings {
    pub cpus: Vec<CpuReading>,
    pub physical_cores: Option<usize>,
    /// The content of the `os-release` file, if it could be read.
    pub os_release: Option<String>,
    pub system_name: Option<String>,
    pub system_version: Option<String>,
}

/// Makes snapshots. It holds what does not change while the host is up.
#[derive(Debug)]
pub struct TelemetryCollector {
    pub cpu_info: Option<CpuInfo>,
    pub os_info: Option<String>,
}

impl TelemetryCollector {
    /// A collector for a host.
    pub fn new(host: HostReadings) -> (res: Self)
        ensures
            describes_cpu(host.cpus@, host.physical_cores, res.cpu_info),
            option_view(res.os_info) == os_name(
                option_view(host.os_release),
                option_view(host.system_name),
                option_view(host.system_version),
            ),
    {
        TelemetryCollector {
            cpu_info: build_cpu_info(&host.cpus, host.physical_cores),
            os_info: collect_os_info(host.os_release, host.system_name, host.system_version),
        }
    }

    /// Makes a snapshot. The size of the stored snapshots is not known yet.
    pub fn collect<F>(&self, readings: Readings<F>) -> (res: TelemetrySnapshot<F>)
        ensures
            res.timestamp == readings.timestamp,
            res.os == self.os_info,
            res.cpu.usage == readings.cpu_usage,
            res.cpu.info == self.cpu_info,
            res.gpu == readings.gpu,
            res.memory.usage == usage_of(
                readings.used_memory as nat,
                readings.total_memory as nat,
            ),
            res.memory.used_gb == gb_hundredths_spec(readings.used_memory as nat),
            res.memory.total_gb == gb_hundredths_spec(readings.total_memory as nat),
            stats_views(res.disk@) == disk_views(readings.disks@),
            res.containers == readings.containers,
            res.uptime_seconds == readings.uptime_seconds,
            res.load_average == readings.load_average,
            res.cached_telemetry_size@ == size_text(0),
    {
        let os = match &self.os_info {
            Some(os) => Some(os.clone()),
            None => None,
        };
        let info = match &self.cpu_info {
            Some(info) => Some(info.clone()),
            None => None,
        };
        TelemetrySnapshot {
            timestamp: readings.timestamp,
            os,
            cpu: Cpu { usage: readings.cpu_usage, info },
            gpu: readings.gpu,
            memory: build_memory_stats(readings.total_memory, readings.used_memory),
            disk: build_disk_stats(&readings.disks),
            containers: readings.containers,
            uptime_seconds: readings.uptime_seconds,
            load_average: readings.load_average,
            cached_telemetry_size: format_dynamic_size(0),
        }
    }
}

// ─── Laws ────────────────────────────────────────────────────────────────────

/// A usage is between 0 and 100 percent, and 100 where all is in use.
pub proof fn usage_is_a_percentage(used: u64, total: u64)
    requires
        used <= total,
    ensures
        usage_of(used as nat, total as nat) <= 10000,
        0 < used == total ==> usage_of(used as nat, total as nat) == 10000,
{
    if total > 0 {
        share_is_at_most_whole(used as nat, total as nat);
    }
}

/// Whether `view` is what is said of one of the disks that are worth a report.
pub open spec fn tells_of_one(view: DiskView, disks: Seq<DiskReading>) -> bool {
    exists|j: int|
        0 <= j < disks.len() && is_reported(disks[j]) && view == disk_view(#[trigger] disks[j])
}

/// Every disk in a report is one that is worth it, its usage is between 0 and
/// 100 percent, and no disk that is worth it is left out.
pub proof fn disk_report_is_complete(disks: Seq<DiskReading>)
    ensures
        forall|i: int|
            0 <= i < disk_views(disks).len() ==> (#[trigger] disk_views(disks)[i]).usage <= 10000,
        forall|i: int|
            0 <= i < disk_views(disks).len() ==> tells_of_one(#[trigger] disk_views(disks)[i], disks),
        forall|j: int|
            0 <= j < disks.len() && is_reported(#[trigger] disks[j]) ==> disk_views(
                disks,
            ).contains(disk_view(disks[j])),
{
    let wanted = |d: DiskReading| is_reported(d);
    let reported = disks.filter(wanted);
    assert forall|i: int| 0 <= i < disk_views(disks).len() implies {
        &&& (#[trigger] disk_views(disks)[i]).usage <= 10000
        &&& tells_of_one(disk_views(disks)[i], disks)
    } by {
        disks.lemma_filter_pred(wanted, i);
        let d = reported[i];
        assert(reported.contains(d));
        disks.lemma_filter_contains_rev(wanted, d);
        let j = choose|j: int| 0 <= j < disks.len() && disks[j] == d;
        assert(disk_views(disks)[i] == disk_view(disks[j]));
        share_is_at_most_whole(used_space(d), d.total_space as nat);
    }
    assert forall|j: int| 0 <= j < disks.len() && is_reported(#[trigger] disks[j]) implies disk_views(
        disks,
    ).contains(disk_view(disks[j])) by {
        disks.lemma_filter_contains(wanted, j);
        let i = choose|i: int| 0 <= i < reported.len() && reported[i] == disks[j];
        assert(disk_views(disks)[i] == disk_view(disks[j]));
    }
}

/// A model name is tidy: there is no white space around it, and the frequency
/// that may follow an `@` is not part of it.
pub proof fn model_name_is_tidy(brand: Seq<char>)
    ensures
        forall|i: int| 0 <= i < model_name(brand).len() ==> #[trigger] model_name(brand)[i] != '@',
        model_name(brand).len() > 0 ==> !is_white_space(model_name(brand)[0]) && !is_white_space(
            model_name(brand).last(),
        ),
{
    let s = join_spec(words_spec(without_noise(brand)), " "@);
    let at = CharClass::Just('@');
    lemma_find(s, at);
    let t = s.take(find(s, at) as int);
    lemma_trim_both(t, CharClass::White);
    let (i, j) = choose|i: int, j: int|
        0 <= i <= j <= t.len() && model_name(brand) == #[trigger] t.subrange(i, j);
    assert forall|n: int| 0 <= n < model_name(brand).len() implies #[trigger] model_name(brand)[n]
        != '@' by {
        assert(model_name(brand)[n] == s[i + n]);
        assert(!at.holds(s[i + n]));
    }
}

proof fn lemma_kept_append<T>(x: Seq<Option<T>>, y: Seq<Option<T>>)
    ensures
        kept(x + y) == kept(x) + kept(y),
    decreases y.len(),
{
    if y.len() == 0 {
        assert(x + y =~= x);
        assert(kept(x) + kept(y) =~= kept(x));
    } else {
        lemma_kept_append(x, y.drop_last());
        assert((x + y).drop_last() =~= x + y.drop_last());
        assert(kept(x + y) =~= kept(x) + kept(y));
    }
}

/// White space at the end of a line makes no difference.
proof fn lemma_trimmed_drop_last(s: Seq<char>)
    requires
        s.len() > 0,
        is_white_space(s.last()),
    ensures
        trimmed(s.drop_last()) == trimmed(s),
    decreases s.len(),
{
    let white = CharClass::White;
    if white.holds(s[0]) {
        if s.len() > 1 {
            lemma_trimmed_drop_last(s.drop_first());
            assert(s.drop_first().drop_last() =~= s.drop_last().drop_first());
        } else {
            assert(s.drop_first() =~= s.drop_last());
        }
    } else {
        assert(s.drop_last()[0] == s[0]);
        assert(trim_start(s, white) == s);
        assert(trim_start(s.drop_last(), white) == s.drop_last());
    }
}

/// The first line of an output, and what the rest tells of.
proof fn lemma_first_line(
    line: Seq<char>,
    rest: Seq<char>,
    f: spec_fn(Seq<char>) -> Option<DockerPsRow>,
)
    requires
        forall|i: int| 0 <= i < line.len() ==> #[trigger] line[i] != '\n',
    ensures
        docker_containers(line + seq!['\n'] + rest, f) == kept(seq![container_on(line, f)])
            + docker_containers(rest, f),
{
    let s = line + seq!['\n'] + rest;
    let newline = CharClass::Just('\n');
    let on = |line: Seq<char>| container_on(line, f);
    let i = line.len() as int;
    assert forall|j: int| 0 <= j < i implies !newline.holds(#[trigger] s[j]) by {
        assert(s[j] == line[j]);
    }
    assert(s[i] == '\n');
    lemma_find_is(s, newline, i);
    assert(s.take(i) =~= line);
    assert(s.skip(i + 1) =~= rest);
    assert(container_on(without_cr(line), f) == container_on(line, f)) by {
        if line.len() > 0 && line.last() == '\r' {
            lemma_trimmed_drop_last(line);
        }
    }
    assert(lines_spec(s).map_values(on) =~= seq![container_on(line, f)] + lines_spec(
        rest,
    ).map_values(on));
    lemma_kept_append(seq![container_on(line, f)], lines_spec(rest).map_values(on));
}

/// Lines do not disturb their neighbours: an output, a line break and another
/// output tell of the containers of the first and then of those of the second.
pub proof fn docker_outputs_add_up(
    a: Seq<char>,
    b: Seq<char>,
    f: spec_fn(Seq<char>) -> Option<DockerPsRow>,
)
    ensures
        docker_containers(a + seq!['\n'] + b, f) == docker_containers(a, f) + docker_containers(
            b,
            f,
        ),
    decreases a.len(),
{
    let newline = CharClass::Just('\n');
    let on = |line: Seq<char>| container_on(line, f);
    let i = find(a, newline) as int;
    lemma_find(a, newline);
    assert forall|j: int| 0 <= j < i implies #[trigger] a.take(i)[j] != '\n' by {
        assert(!newline.holds(a[j]));
    }
    if i < a.len() {
        let line = a.take(i);
        let rest = a.skip(i + 1);
        assert(a =~= line + seq!['\n'] + rest);
        assert(a + seq!['\n'] + b =~= line + seq!['\n'] + (rest + seq!['\n'] + b));
        lemma_first_line(line, rest, f);
        lemma_first_line(line, rest + seq!['\n'] + b, f);
        docker_outputs_add_up(rest, b, f);
        let first = kept(seq![container_on(line, f)]);
        assert(first + docker_containers(rest, f) + docker_containers(b, f) =~= first + (
        docker_containers(rest, f) + docker_containers(b, f)));
    } else {
        assert(a.take(i) =~= a);
        lemma_first_line(a, b, f);
        if a.len() == 0 {
            assert(trimmed(a).len() == 0) by {
                lemma_trim_both(a, CharClass::White);
            }
            assert(lines_spec(a).map_values(on) =~= seq![]);
            assert(seq![container_on(a, f)].drop_last() =~= seq![]);
        } else {
            assert(lines_spec(a).map_values(on) =~= seq![container_on(a, f)]);
        }
    }
}

/// Every container that is found has a name, and something stands for its
/// ports.
pub proof fn containers_are_named<R: Fn(&str) -> Option<DockerPsRow>>(
    lines: Seq<Seq<char>>,
    read: R,
    found: Seq<Option<ContainerView>>,
)
    requires
        are_docker_readings(lines, read, found),
    ensures
        forall|i: int|
            0 <= i < kept(found).len() ==> (#[trigger] kept(found)[i]).name.len() > 0 && kept(
                found,
            )[i].ports.len() > 0,
    decreases found.len(),
{
    reveal_strlit("—");
    if found.len() > 0 {
        let fewer = found.drop_last();
        let last = found.len() - 1;
        assert forall|i: int| 0 <= i < last implies is_docker_reading(
            #[trigger] lines.drop_last()[i],
            read,
            fewer[i],
        ) by {
            assert(is_docker_reading(lines[i], read, found[i]));
        }
        containers_are_named(lines.drop_last(), read, fewer);
        assert(is_docker_reading(lines[last], read, found[last]));
        assert forall|i: int| 0 <= i < kept(found).len() implies (#[trigger] kept(
            found,
        )[i]).name.len() > 0 && kept(found)[i].ports.len() > 0 by {
            if i < kept(fewer).len() {
                assert(kept(found)[i] == kept(fewer)[i]);
            } else {
                assert(found.last() == Some(kept(found)[i]));
            }
        }
    }
}

// ─── What holds of sizes ─────────────────────────────────────────────────────

/// Decimals are written out: what stands before the point is the whole part,
/// what stands behind it are the hundredths or thousandths.
pub proof fn decimals_are_written_out(n: nat)
    ensures
        ({
            let s = two_decimals(n);
            let point = decimal(n / 100).len() as int;
            &&& s.len() == point + 3
            &&& s.take(point) == decimal(n / 100)
            &&& s[point] == '.'
            &&& all_digits(s.skip(point + 1))
            &&& digits_value(s.skip(point + 1)) == n % 100
        }),
        ({
            let s = three_decimals(n);
            let point = decimal(n / 1000).len() as int;
            &&& s.len() == point + 4
            &&& s.take(point) == decimal(n / 1000)
            &&& s[point] == '.'
            &&& all_digits(s.skip(point + 1))
            &&& digits_value(s.skip(point + 1)) == n % 1000
        }),
{
    reveal_strlit(".");
    reveal_with_fuel(power_of_ten, 4);
    padded_decimal_reads_back(n % 100, 2);
    padded_decimal_reads_back(n % 1000, 3);
    let s = two_decimals(n);
    let point = decimal(n / 100).len() as int;
    assert(s.take(point) =~= decimal(n / 100));
    assert(s.skip(point + 1) =~= decimal_padded(n % 100, 2));
    let s = three_decimals(n);
    let point = decimal(n / 1000).len() as int;
    assert(s.take(point) =~= decimal(n / 1000));
    assert(s.skip(point + 1) =~= decimal_padded(n % 1000, 3));
}

/// Whether `text` says `bytes` in a unit: the nearest number of hundredths of
/// it, and its name.
pub open spec fn says_in_unit(
    text: Seq<char>,
    bytes: nat,
    unit: nat,
    name: Seq<char>,
) -> bool {
    exists|n: nat|
        {
            &&& text == #[trigger] two_decimals(n) + name
            &&& 200 * bytes - unit <= 2 * (n * unit) <= 200 * bytes + unit
            &&& 2 * (n * unit) == 200 * bytes + unit || 2 * (n * unit) == 200 * bytes - unit
                ==> n % 2 == 0
        }
}

/// A size is written in the largest unit that is not larger than it, to the
/// nearest hundredth; bytes are written as they are. A size of more than 53
/// binary digits counts as the binary64 number nearest to it.
pub proof fn size_is_written_in_its_unit(bytes: nat)
    ensures
        ({
            let n = double_of(bytes);
            let text = size_text(bytes);
            &&& bytes < 0x20_0000_0000_0000 ==> n == bytes
            &&& bytes < 1024 ==> text == decimal(bytes) + " B"@
            &&& 1024 <= bytes < 1_048_576 ==> says_in_unit(text, n, 1024, " KB"@)
            &&& 1_048_576 <= bytes < 1_073_741_824 ==> says_in_unit(text, n, 1_048_576, " MB"@)
            &&& 1_073_741_824 <= bytes < 1_099_511_627_776 ==> says_in_unit(
                text,
                n,
                1_073_741_824,
                " GB"@,
            )
            &&& 1_099_511_627_776 <= bytes ==> says_in_unit(text, n, 1_099_511_627_776, " TB"@)
        }),
{
    size_is_the_nearest_in_its_unit(bytes, 1024);
    size_is_the_nearest_in_its_unit(bytes, 1_048_576);
    size_is_the_nearest_in_its_unit(bytes, 1_073_741_824);
    size_is_the_nearest_in_its_unit(bytes, 1_099_511_627_776);
}

/// Where there is no total, nothing of it is in use; otherwise the usage is the
/// share, to the nearest hundredth of a percent. It is more than the whole where
/// more is in use than there is.
pub proof fn usage_is_the_share(used: u64, total: u64)
    ensures
        ({
            let a = double_of(used as nat);
            let b = double_of(total as nat);
            let h = usage_of(used as nat, total as nat);
            &&& total == 0 ==> h == 0
            &&& total > 0 ==> {
                &&& used < 0x20_0000_0000_0000 ==> a == used
                &&& total < 0x20_0000_0000_0000 ==> b == total
                &&& 1_000_000 * (20000 * a - b) - a <= 2_000_000 * (h * b) <= 1_000_000 * (20000
                    * a + b) + a
            }
        }),
{
    if total > 0 {
        percentage_is_the_share(used, total);
    }
}

// ─── What holds of the CPU and the system ────────────────────────────────────

proof fn lemma_nothing_to_take_out(s: Seq<char>, pat: Seq<char>)
    requires
        pat.len() > 0,
        !contains_spec(s, pat),
    ensures
        remove_all_spec(s, pat) == s,
{
    assert forall|j: int| 0 <= j < s.len() implies !(#[trigger] occurs_at(s, pat, j)) by {}
    pattern_is_taken_out(s, pat, s.len() as int);
}

/// The signs and words that say nothing.
pub open spec fn noise() -> Seq<Seq<char>> {
    seq!["(R)"@, "(TM)"@, "(r)"@, "(tm)"@, "CPU "@, "Processor"@]
}

/// Each of the six signs and words that say nothing is taken out of a brand
/// string, and nothing else is.
pub proof fn noise_is_taken_out(left: Seq<char>, i: int, right: Seq<char>)
    requires
        0 <= i < 6,
        forall|j: int| 0 <= j < 6 ==> !contains_spec(left + right, #[trigger] noise()[j]),
        forall|j: int|
            0 <= j < 6 && j != i ==> !contains_spec(
                left + noise()[i] + right,
                #[trigger] noise()[j],
            ),
        forall|j: int|
            0 <= j < left.len() ==> !(#[trigger] occurs_at(
                left + noise()[i] + right,
                noise()[i],
                j,
            )),
    ensures
        without_noise(left + right) == left + right,
        without_noise(left + noise()[i] + right) == left + right,
{
    reveal_strlit("(R)");
    reveal_strlit("(TM)");
    reveal_strlit("(r)");
    reveal_strlit("(tm)");
    reveal_strlit("CPU ");
    reveal_strlit("Processor");
    let clean = left + right;
    let pat = noise()[i];
    let full = left + pat + right;
    let n = left.len() as int;
    assert(noise()[0] == "(R)"@ && noise()[1] == "(TM)"@ && noise()[2] == "(r)"@);
    assert(noise()[3] == "(tm)"@ && noise()[4] == "CPU "@ && noise()[5] == "Processor"@);
    assert forall|j: int| 0 <= j < 6 implies remove_all_spec(clean, #[trigger] noise()[j])
        == clean by {
        lemma_nothing_to_take_out(clean, noise()[j]);
    }
    assert forall|j: int| 0 <= j < 6 && j != i implies remove_all_spec(full, #[trigger] noise()[j])
        == full by {
        lemma_nothing_to_take_out(full, noise()[j]);
    }
    assert(remove_all_spec(full, pat) == clean) by {
        assert(full.subrange(n, n + pat.len()) =~= pat);
        assert(occurs_at(full, pat, n));
        pattern_is_taken_out(full, pat, n);
        assert(full.take(n) =~= left);
        assert(full.skip(n + pat.len()) =~= right);
        if contains_spec(right, pat) {
            let k = choose|k: int| occurs_at(right, pat, k);
            assert(clean.subrange(n + k, n + k + pat.len()) =~= right.subrange(k, k + pat.len()));
            assert(occurs_at(clean, pat, n + k));
        }
        lemma_nothing_to_take_out(right, pat);
    }
    assert(remove_all_spec(clean, noise()[0]) == clean);
    assert(remove_all_spec(clean, noise()[1]) == clean);
    assert(remove_all_spec(clean, noise()[2]) == clean);
    assert(remove_all_spec(clean, noise()[3]) == clean);
    assert(remove_all_spec(clean, noise()[4]) == clean);
    assert(remove_all_spec(clean, noise()[5]) == clean);
    assert(i != 0 ==> remove_all_spec(full, noise()[0]) == full);
    assert(i != 1 ==> remove_all_spec(full, noise()[1]) == full);
    assert(i != 2 ==> remove_all_spec(full, noise()[2]) == full);
    assert(i != 3 ==> remove_all_spec(full, noise()[3]) == full);
    assert(i != 4 ==> remove_all_spec(full, noise()[4]) == full);
    assert(i != 5 ==> remove_all_spec(full, noise()[5]) == full);
}

/// The words of a brand string that is without noise are its model name, with
/// single spaces between them; an `@` and what follows it are not part of it.
pub proof fn model_name_is_the_words_before_the_frequency(
    brand: Seq<char>,
    words: Seq<Seq<char>>,
    more: Seq<Seq<char>>,
)
    requires
        words.len() > 0,
        words_spec(without_noise(brand)) == words || words_spec(without_noise(brand)) == words
            + seq![seq!['@']] + more,
        forall|i: int| 0 <= i < words.len() ==> (#[trigger] words[i]).len() > 0,
        forall|i: int, j: int|
            0 <= i < words.len() && 0 <= j < words[i].len() ==> #[trigger] words[i][j] != '@'
                && !is_white_space(words[i][j]),
    ensures
        model_name(brand) == join_spec(words, seq![' ']),
{
    reveal_strlit(" ");
    assert(" "@ =~= seq![' ']);
    let at = CharClass::Just('@');
    let name = join_spec(words, seq![' ']);
    lemma_joined_words(words);
    let s = join_spec(words_spec(without_noise(brand)), " "@);
    if words_spec(without_noise(brand)) == words {
        assert forall|j: int| 0 <= j < name.len() implies !at.holds(#[trigger] name[j]) by {}
        lemma_find_is(name, at, name.len() as int);
        assert(s.take(name.len() as int) =~= name);
        trimming_leaves_the_middle(seq![], name, seq![], CharClass::White);
        assert(seq![] + name + seq![] =~= name);
    } else {
        let tail = seq![seq!['@']] + more;
        assert(words + seq![seq!['@']] + more =~= words + tail);
        lemma_join_append(words, tail);
        lemma_join_starts(tail);
        let t = join_spec(tail, seq![' ']);
        let n = name.len() as int;
        assert(s =~= name + seq![' '] + t);
        assert forall|j: int| 0 <= j < n + 1 implies !at.holds(#[trigger] s[j]) by {
            if j < n {
                assert(s[j] == name[j]);
            }
        }
        assert(s[n + 1] == t[0]);
        lemma_find_is(s, at, n + 1);
        assert(s.take(n + 1) =~= seq![] + name + seq![' ']);
        trimming_leaves_the_middle(seq![], name, seq![' '], CharClass::White);
    }
}

/// Joined words begin and end as words do, and hold what they hold.
proof fn lemma_joined_words(words: Seq<Seq<char>>)
    requires
        words.len() > 0,
        forall|i: int| 0 <= i < words.len() ==> (#[trigger] words[i]).len() > 0,
        forall|i: int, j: int|
            0 <= i < words.len() && 0 <= j < words[i].len() ==> #[trigger] words[i][j] != '@'
                && !is_white_space(words[i][j]),
    ensures
        ({
            let s = join_spec(words, seq![' ']);
            &&& s.len() > 0
            &&& !is_white_space(s[0]) && !is_white_space(s.last())
            &&& forall|j: int| 0 <= j < s.len() ==> #[trigger] s[j] != '@'
        }),
    decreases words.len(),
{
    let s = join_spec(words, seq![' ']);
    let last = words.last();
    assert(forall|j: int|
        0 <= j < last.len() ==> last[j] == words[words.len() - 1][j]);
    if words.len() == 1 {
        assert(s == words[0]);
        assert(words[0][0] != '@' && words[0][words[0].len() - 1] != '@');
        assert forall|j: int| 0 <= j < s.len() implies #[trigger] s[j] != '@' by {
            assert(words[0][j] != '@');
        }
    } else {
        let fewer = words.drop_last();
        assert forall|i: int, j: int|
            0 <= i < fewer.len() && 0 <= j < fewer[i].len() implies #[trigger] fewer[i][j] != '@'
            && !is_white_space(fewer[i][j]) by {
            assert(words[i][j] != '@');
        }
        assert forall|i: int| 0 <= i < fewer.len() implies (#[trigger] fewer[i]).len() > 0 by {
            assert(words[i].len() > 0);
        }
        lemma_joined_words(fewer);
        let t = join_spec(fewer, seq![' ']);
        let k = words.len() - 1;
        assert(s == t + seq![' '] + words[k]);
        assert(words[k].len() > 0);
        assert(s[0] == t[0]);
        assert(s.last() == words[k][words[k].len() - 1]);
        assert forall|j: int| 0 <= j < s.len() implies #[trigger] s[j] != '@' by {
            if j < t.len() {
                assert(s[j] == t[j]);
            } else if j > t.len() {
                assert(s[j] == words[k][j - t.len() - 1]);
            }
        }
    }
}

proof fn lemma_join_append(words: Seq<Seq<char>>, more: Seq<Seq<char>>)
    requires
        words.len() > 0,
        more.len() > 0,
    ensures
        join_spec(words + more, seq![' ']) == join_spec(words, seq![' ']) + seq![' '] + join_spec(
            more,
            seq![' '],
        ),
    decreases more.len(),
{
    let all = words + more;
    assert(all.last() == more.last());
    if more.len() == 1 {
        assert(all.drop_last() =~= words);
    } else {
        let fewer = more.drop_last();
        assert(all.drop_last() =~= words + fewer);
        lemma_join_append(words, fewer);
        let (x, y) = (join_spec(words, seq![' ']), join_spec(fewer, seq![' ']));
        assert(x + seq![' '] + y + seq![' '] + more.last() =~= x + seq![' '] + (y + seq![' ']
            + more.last()));
    }
}

proof fn lemma_join_starts(parts: Seq<Seq<char>>)
    requires
        parts.len() > 0,
        parts[0].len() > 0,
    ensures
        join_spec(parts, seq![' ']).len() > 0,
        join_spec(parts, seq![' '])[0] == parts[0][0],
    decreases parts.len(),
{
    if parts.len() > 1 {
        assert(parts.drop_last()[0] == parts[0]);
        lemma_join_starts(parts.drop_last());
    }
}

/// What is said of a CPU: its model, as many threads as there are logical CPUs,
/// the physical cores where they are known, and the frequency, in one line.
/// Nothing is said of one without a name.
pub proof fn cpu_is_described_in_one_line(
    cpus: Seq<CpuReading>,
    physical_cores: Option<usize>,
    found: Option<CpuInfo>,
)
    requires
        describes_cpu(cpus, physical_cores, found),
    ensures
        found is Some <==> cpus.len() > 0 && cpus[0].brand@.len() > 0,
        found matches Some(info) ==> {
            &&& info.model@ == model_name(cpus[0].brand@)
            &&& info.frequency_mhz == cpus[0].frequency
            &&& cpus.len() <= u32::MAX ==> info.threads == cpus.len()
            &&& physical_cores matches Some(n) ==> n <= u32::MAX ==> info.cores == n
            &&& physical_cores is None ==> info.cores == info.threads
            &&& info.frequency_mhz < 0x8_0000_0000_0000 ==> info.display@ == info.model@ + " @ "@
                + decimal(info.cores as nat) + "x "@ + (decimal(
                (info.frequency_mhz / 1000) as nat,
            ) + "."@ + decimal_padded((info.frequency_mhz % 1000) as nat, 3)) + "GHz"@
        },
{
    if let Some(info) = found {
        if info.frequency_mhz < 0x8_0000_0000_0000 {
            thousandths_are_kept(info.frequency_mhz as nat);
        }
    }
}

/// The first line that sets `PRETTY_NAME` names the system, without quotes
/// around the name; without such a line there is no name.
pub proof fn first_pretty_name_counts(
    before: Seq<Seq<char>>,
    left: Seq<char>,
    name: Seq<char>,
    right: Seq<char>,
    rest: Seq<Seq<char>>,
)
    requires
        forall|i: int|
            0 <= i < before.len() ==> !occurs_at(#[trigger] before[i], "PRETTY_NAME="@, 0),
        forall|i: int| 0 <= i < left.len() ==> #[trigger] left[i] == '"',
        forall|i: int| 0 <= i < right.len() ==> #[trigger] right[i] == '"',
        name.len() > 0 && name[0] != '"' && name.last() != '"',
    ensures
        pretty_name(before) is None,
        pretty_name(before + seq!["PRETTY_NAME="@ + (left + name + right)] + rest) == Some(name),
        pretty_name(before + seq!["PRETTY_NAME="@ + left] + rest) == Some(Seq::<char>::empty()),
    decreases before.len(),
{
    let line = "PRETTY_NAME="@ + (left + name + right);
    let all = before + seq![line] + rest;
    let blank = "PRETTY_NAME="@ + left;
    let none = before + seq![blank] + rest;
    if before.len() > 0 {
        let fewer = before.drop_first();
        assert forall|i: int| 0 <= i < fewer.len() implies !occurs_at(
            #[trigger] fewer[i],
            "PRETTY_NAME="@,
            0,
        ) by {
            assert(!occurs_at(before[i + 1], "PRETTY_NAME="@, 0));
        }
        first_pretty_name_counts(fewer, left, name, right, rest);
        assert(all.drop_first() =~= fewer + seq![line] + rest);
        assert(none.drop_first() =~= fewer + seq![blank] + rest);
        assert(all[0] == before[0] && none[0] == before[0]);
    } else {
        assert(all[0] == line);
        let n = "PRETTY_NAME="@.len() as int;
        assert(line.subrange(0, n) =~= "PRETTY_NAME="@);
        assert(line.skip(n) =~= left + name + right);
        trimming_leaves_the_middle(left, name, right, CharClass::Just('"'));
        assert(none[0] == blank);
        assert(blank.subrange(0, n) =~= "PRETTY_NAME="@);
        assert(blank.skip(n) =~= left);
        trimming_takes_the_class_off(left, CharClass::Just('"'));
        assert(trim_both(left, CharClass::Just('"')) =~= seq![]);
    }
}

/// The system has the name that its `os-release` file gives it; failing that,
/// its own name and, if there is one, a space and its version.
pub proof fn system_is_named_by_its_file_first(
    content: Seq<char>,
    name: Seq<char>,
    version: Seq<char>,
    other: Option<Seq<char>>,
    another: Option<Seq<char>>,
)
    ensures
        version.len() > 0 ==> system_name(Some(name), Some(version)) == Some(
            name + seq![' '] + version,
        ),
        system_name(Some(name), Some(seq![])) == Some(name),
        system_name(Some(name), None) == Some(name),
        system_name(None, other) is None,
        os_name(None, other, another) == system_name(other, another),
        pretty_name(lines_spec(content)) is None ==> os_name(Some(content), other, another)
            == system_name(other, another),
        pretty_name(lines_spec(content)) is Some ==> os_name(Some(content), other, another)
            == pretty_name(lines_spec(content)),
{
    reveal_strlit(" ");
    assert(" "@ =~= seq![' ']);
}

// ─── What holds of disks ─────────────────────────────────────────────────────

/// A disk is reported if it has room, is not called an overlay, and its file
/// system is none of six, in whatever case they are written.
pub proof fn disks_that_keep_nothing_are_left_out(disk: DiskReading)
    ensures
        is_reported(disk) <==> {
            &&& disk.total_space > 0
            &&& lowered(disk.name@) != "overlay"@
            &&& !seq![
                "overlay"@,
                "tmpfs"@,
                "devtmpfs"@,
                "squashfs"@,
                "efivarfs"@,
                "autofs"@,
            ].contains(lowered(disk.file_system@))
        },
{
    let all = seq!["overlay"@, "tmpfs"@, "devtmpfs"@, "squashfs"@, "efivarfs"@, "autofs"@];
    reveal_strlit("overlay");
    reveal_strlit("tmpfs");
    reveal_strlit("devtmpfs");
    reveal_strlit("squashfs");
    reveal_strlit("efivarfs");
    reveal_strlit("autofs");
    assert(lowered("overlay"@) =~= "overlay"@);
    assert(lowered("tmpfs"@) =~= "tmpfs"@);
    assert(lowered("devtmpfs"@) =~= "devtmpfs"@);
    assert(lowered("squashfs"@) =~= "squashfs"@);
    assert(lowered("efivarfs"@) =~= "efivarfs"@);
    assert(lowered("autofs"@) =~= "autofs"@);
    assert(all[0] == "overlay"@ && all[1] == "tmpfs"@ && all[2] == "devtmpfs"@);
    assert(all[3] == "squashfs"@ && all[4] == "efivarfs"@ && all[5] == "autofs"@);
}

/// What is in use of a disk is what is not available; its usage is that share,
/// and both sizes are written out. A disk without a name has that of its mount
/// point.
pub proof fn disk_is_as_full_as_it_is_not_available(disk: DiskReading)
    ensures
        disk.available_space <= disk.total_space ==> used_space(disk) + disk.available_space
            == disk.total_space,
        disk.available_space > disk.total_space ==> used_space(disk) == 0,
        disk.name@.len() > 0 ==> disk_view(disk).name == disk.name@,
        disk.name@.len() == 0 ==> disk_view(disk).name == disk.mount_point@,
        disk_view(disk).total_size == size_text(disk.total_space as nat),
        disk_view(disk).used_size == size_text(used_space(disk)),
        disk.total_space > 0 ==> disk_view(disk).usage == usage_of(
            used_space(disk),
            disk.total_space as nat,
        ),
{
}

/// Disks are reported one by one, in their order.
pub proof fn disks_are_reported_in_their_order(disks: Seq<DiskReading>, disk: DiskReading)
    ensures
        disk_views(seq![]) == Seq::<DiskView>::empty(),
        is_reported(disk) ==> disk_views(disks.push(disk)) == disk_views(disks).push(
            disk_view(disk),
        ),
        !is_reported(disk) ==> disk_views(disks.push(disk)) == disk_views(disks),
{
    reveal(Seq::filter);
    assert(disks.push(disk).drop_last() =~= disks);
    assert(disk_views(seq![]) =~= Seq::<DiskView>::empty());
    assert(is_reported(disk) ==> disk_views(disks.push(disk)) =~= disk_views(disks).push(
        disk_view(disk),
    ));
    assert(!is_reported(disk) ==> disk_views(disks.push(disk)) =~= disk_views(disks));
}

// ─── What holds of the tools' outputs ────────────────────────────────────────

/// What was found is kept, in its order, and nothing else.
pub proof fn found_items_are_kept_in_order<T>(found: Seq<Option<T>>, item: T)
    ensures
        kept::<T>(seq![]) == Seq::<T>::empty(),
        kept(found.push(Some(item))) == kept(found).push(item),
        kept(found.push(None)) == kept(found),
{
    assert(found.push(Some(item)).drop_last() =~= found);
    assert(found.push(None).drop_last() =~= found);
}

/// The column that is found for a keyword is one whose heading holds it, in
/// whatever case, and no column before it is. None is found only where no
/// heading holds it.
pub proof fn first_heading_with_the_keyword_is_found(columns: Seq<Seq<char>>, keyword: Seq<char>)
    ensures
        column(columns, keyword) <= columns.len(),
        column(columns, keyword) < columns.len() ==> contains_spec(
            lowered(columns[column(columns, keyword) as int]),
            keyword,
        ),
        forall|j: int|
            0 <= j < column(columns, keyword) ==> !contains_spec(
                lowered(#[trigger] columns[j]),
                keyword,
            ),
    decreases columns.len(),
{
    if columns.len() > 0 && !contains_spec(lowered(columns[0]), keyword) {
        let rest = columns.drop_first();
        first_heading_with_the_keyword_is_found(rest, keyword);
        let n = column(rest, keyword) as int;
        assert(n < rest.len() ==> columns[n + 1] == rest[n]);
        assert forall|j: int| 0 <= j < column(columns, keyword) implies !contains_spec(
            lowered(#[trigger] columns[j]),
            keyword,
        ) by {
            if j > 0 {
                assert(columns[j] == rest[j - 1]);
            }
        }
    }
}

/// Whether column `i` is the first whose heading holds `keyword`, in whatever
/// case.
pub open spec fn is_first_with(columns: Seq<Seq<char>>, keyword: Seq<char>, i: int) -> bool {
    &&& 0 <= i < columns.len()
    &&& contains_spec(lowered(columns[i]), keyword)
    &&& forall|j: int| 0 <= j < i ==> !contains_spec(lowered(#[trigger] columns[j]), keyword)
}

/// Whether the heading of some column holds `keyword`, in whatever case.
pub open spec fn is_named(columns: Seq<Seq<char>>, keyword: Seq<char>) -> bool {
    exists|i: int|
        0 <= i < columns.len() && contains_spec(lowered(#[trigger] columns[i]), keyword)
}

/// A table is read where its heading names the card, its usage and its memory
/// usage; each is in the first column that names it.
pub proof fn heading_names_three_columns(cells: Seq<Seq<char>>)
    requires
        0 < cells.len() <= usize::MAX,
        forall|i: int, j: int|
            0 <= i < cells.len() && 0 <= j < cells[i].len() ==> #[trigger] cells[i][j] != ',',
    ensures
        ({
            let found = columns_in(join_spec(cells, seq![',']));
            &&& found is Some <==> is_named(cells, "card"@) && is_named(cells, "gpu use"@)
                && is_named(cells, "gpu memory use"@)
            &&& found matches Some(columns) ==> {
                &&& is_first_with(cells, "card"@, columns.name as int)
                &&& is_first_with(cells, "gpu use"@, columns.usage as int)
                &&& is_first_with(cells, "gpu memory use"@, columns.memory as int)
            }
        }),
{
    cutting_undoes_joining(cells, ',');
    lemma_named(cells, "card"@);
    lemma_named(cells, "gpu use"@);
    lemma_named(cells, "gpu memory use"@);
}

proof fn lemma_named(columns: Seq<Seq<char>>, keyword: Seq<char>)
    ensures
        is_named(columns, keyword) <==> column(columns, keyword) < columns.len(),
        column(columns, keyword) < columns.len() ==> is_first_with(
            columns,
            keyword,
            column(columns, keyword) as int,
        ),
{
    first_heading_with_the_keyword_is_found(columns, keyword);
    if is_named(columns, keyword) {
        let i = choose|i: int|
            0 <= i < columns.len() && contains_spec(lowered(#[trigger] columns[i]), keyword);
        assert(column(columns, keyword) <= i);
    }
}

/// A row holds what stands in its columns, without white space around it; a
/// line with too few columns is no row.
pub proof fn row_holds_what_stands_in_its_columns(cells: Seq<Seq<char>>, columns: RocmColumns)
    requires
        cells.len() > 0,
        forall|i: int, j: int|
            0 <= i < cells.len() && 0 <= j < cells[i].len() ==> #[trigger] cells[i][j] != ',',
    ensures
        ({
            let found = rocm_row_on(join_spec(cells, seq![',']), columns);
            &&& found is Some <==> columns.name < cells.len() && columns.usage < cells.len()
                && columns.memory < cells.len()
            &&& found matches Some(row) ==> {
                &&& row.name == trimmed(cells[columns.name as int])
                &&& row.usage == trimmed(cells[columns.usage as int])
                &&& row.memory == trimmed(cells[columns.memory as int])
            }
        }),
{
    cutting_undoes_joining(cells, ',');
}

/// A line of `nvidia-smi` has a name, a usage and two whole numbers, with commas
/// between them; what has fewer parts is no row.
pub proof fn nvidia_line_has_four_parts(
    name: Seq<char>,
    usage: Seq<char>,
    used: Seq<char>,
    total: Seq<char>,
)
    requires
        forall|i: int| 0 <= i < name.len() ==> #[trigger] name[i] != ',',
        forall|i: int| 0 <= i < usage.len() ==> #[trigger] usage[i] != ',',
        forall|i: int| 0 <= i < used.len() ==> #[trigger] used[i] != ',',
    ensures
        ({
            let comma = seq![','];
            let found = nvidia_row_on(
                name + comma + (usage + comma + (used + comma + total)),
            );
            &&& found is Some <==> parse_u64_spec(trimmed(used)) is Some && parse_u64_spec(
                trimmed(total),
            ) is Some
            &&& found matches Some(row) ==> {
                &&& row.name == trimmed(name)
                &&& row.usage == trimmed(usage)
                &&& Some(row.used_mib) == parse_u64_spec(trimmed(used))
                &&& Some(row.total_mib) == parse_u64_spec(trimmed(total))
            }
        }),
        nvidia_row_on(name) is None,
        nvidia_row_on(name + seq![','] + usage) is None,
        nvidia_row_on(name + seq![','] + (usage + seq![','] + used)) is None,
{
    let comma = seq![','];
    let last = used + comma + total;
    cutting_is_at_each_separator(name, usage + comma + last, ',', 2);
    cutting_is_at_each_separator(usage, last, ',', 1);
    cutting_is_at_each_separator(used, total, ',', 0);
    assert(splitn_spec(last, 2, ',') =~= seq![used, total]);
    assert(splitn_spec(usage + comma + last, 3, ',') =~= seq![usage, used, total]);
    assert(splitn_spec(name + comma + (usage + comma + last), 4, ',') =~= seq![
        name,
        usage,
        used,
        total,
    ]);
    cutting_is_at_each_separator(name, usage, ',', 2);
    cutting_is_at_each_separator(name, usage, ',', 4);
    cutting_is_at_each_separator(usage, used, ',', 3);
    assert(splitn_spec(usage, 3, ',') == seq![usage]);
    assert(splitn_spec(name + comma + usage, 4, ',') =~= seq![name, usage]);
    cutting_is_at_each_separator(name, usage + comma + used, ',', 2);
    cutting_is_at_each_separator(usage, used, ',', 1);
    cutting_is_at_each_separator(used, total, ',', 2);
    assert(splitn_spec(used, 2, ',') == seq![used]);
    assert(splitn_spec(usage + comma + used, 3, ',') =~= seq![usage, used]);
    assert(splitn_spec(name + comma + (usage + comma + used), 4, ',') =~= seq![name, usage, used]);
}

/// A GPU is what its row says: its name, its usage as it was measured, its
/// memory in bytes, and the share of it in use. A row whose numbers could not
/// be read tells of none.
pub proof fn gpu_is_what_its_row_says<F>(row: NvidiaRowView, other: RocmRowView, usage: F, memory: F)
    ensures
        nvidia_gpu_of::<F>(row, None) is None,
        ({
            &&& nvidia_gpu_of(row, Some(usage)) matches Some(gpu)
            &&& gpu.name == row.name
            &&& gpu.usage == usage
            &&& gpu.vram_used == size_text((row.used_mib * 1_048_576) as nat)
            &&& gpu.vram_total == size_text((row.total_mib * 1_048_576) as nat)
            &&& gpu.vram_usage == PercentView::<F>::Hundredths(
                usage_of(row.used_mib as nat, row.total_mib as nat),
            )
        }),
        rocm_gpu_of::<F>(other, None, Some(memory)) is None,
        rocm_gpu_of::<F>(other, Some(usage), None) is None,
        rocm_gpu_of::<F>(other, None, None) is None,
        ({
            &&& rocm_gpu_of(other, Some(usage), Some(memory)) matches Some(gpu)
            &&& gpu.name == other.name
            &&& gpu.usage == usage
            &&& gpu.vram_usage == PercentView::Measured(memory)
            &&& gpu.vram_used == "N/A"@
            &&& gpu.vram_total == "N/A"@
        }),
{
}

/// Where numbers are read by a function, the GPUs that `nvidia-smi` tells of
/// are those of its rows, line by line, each with the usage that its row has.
pub proof fn nvidia_gpus_are_those_of_the_rows<F, R: Fn(&str) -> Option<F>>(
    lines: Seq<Seq<char>>,
    read: R,
    found: Seq<Option<GpuView<F>>>,
    f: spec_fn(Seq<char>) -> Option<F>,
)
    requires
        are_nvidia_readings(lines, read, found),
        forall|text: &str, usage: Option<F>| #[trigger]
            call_ensures(read, (text,), usage) ==> usage == f(text@),
    ensures
        found.len() == lines.len(),
        forall|i: int|
            0 <= i < lines.len() ==> #[trigger] found[i] == match nvidia_row_on(lines[i]) {
                Some(row) => nvidia_gpu_of(row, f(row.usage)),
                None => None,
            },
{
    assert forall|i: int| 0 <= i < lines.len() implies #[trigger] found[i] == match nvidia_row_on(
        lines[i],
    ) {
        Some(row) => nvidia_gpu_of(row, f(row.usage)),
        None => None,
    } by {
        assert(is_nvidia_reading(lines[i], read, found[i]));
    }
}

/// Where numbers are read by functions, the GPUs that `rocm-smi` tells of are
/// those of its rows, line by line: the usage as it is read, the memory usage
/// as it is read to two decimals. The columns are those of the first line.
pub proof fn rocm_gpus_are_those_of_the_rows<
    F,
    R: Fn(&str) -> Option<F>,
    S: Fn(&str) -> Option<F>,
>(
    heading: Seq<char>,
    lines: Seq<Seq<char>>,
    columns: RocmColumns,
    read: R,
    read_rounded: S,
    found: Seq<Option<GpuView<F>>>,
    f: spec_fn(Seq<char>) -> Option<F>,
    g: spec_fn(Seq<char>) -> Option<F>,
)
    requires
        are_rocm_readings(lines, columns, read, read_rounded, found),
        forall|text: &str, usage: Option<F>| #[trigger]
            call_ensures(read, (text,), usage) ==> usage == f(text@),
        forall|text: &str, memory: Option<F>| #[trigger]
            call_ensures(read_rounded, (text,), memory) ==> memory == g(text@),
    ensures
        table_columns(seq![heading] + lines) == columns_in(heading),
        table_columns(seq![]) is None,
        found.len() == lines.len(),
        forall|i: int|
            0 <= i < lines.len() ==> #[trigger] found[i] == match rocm_row_on(lines[i], columns) {
                Some(row) => rocm_gpu_of(row, f(row.usage), g(row.memory)),
                None => None,
            },
{
    assert((seq![heading] + lines)[0] == heading);
    assert forall|i: int| 0 <= i < lines.len() implies #[trigger] found[i] == match rocm_row_on(
        lines[i],
        columns,
    ) {
        Some(row) => rocm_gpu_of(row, f(row.usage), g(row.memory)),
        None => None,
    } by {
        assert(is_rocm_reading(lines[i], columns, read, read_rounded, found[i]));
    }
}

/// The ports of a container are the text that its row has, character for
/// character; a dash stands for none.
pub proof fn ports_are_kept_as_they_are(ports: Seq<char>)
    ensures
        ports.len() > 0 ==> ports_text(ports) == ports,
        ports.len() == 0 ==> ports_text(ports) == "—"@,
{
}

/// A container is what its row says, text for text, and each row with a name is
/// a container.
pub proof fn container_is_what_its_row_says(row: DockerPsRow)
    ensures
        container_in(None) is None,
        container_in(Some(row)) is Some <==> row.names@.len() > 0,
        container_in(Some(row)) matches Some(container) ==> {
            &&& container.name == row.names@
            &&& container.status == row.status@
            &&& container.created == row.created_at@
            &&& container.image == row.image@
            &&& row.ports@.len() > 0 ==> container.ports == row.ports@
            &&& row.ports@.len() == 0 ==> container.ports == "—"@
        },
{
}

/// A line of `docker ps` is read without white space around it, and tells of
/// the container of its document; a blank line tells of none.
pub proof fn docker_line_is_read_without_white_space(
    left: Seq<char>,
    document: Seq<char>,
    right: Seq<char>,
    f: spec_fn(Seq<char>) -> Option<DockerPsRow>,
)
    requires
        forall|i: int| 0 <= i < left.len() ==> is_white_space(#[trigger] left[i]),
        forall|i: int| 0 <= i < right.len() ==> is_white_space(#[trigger] right[i]),
        document.len() > 0 && !is_white_space(document[0]) && !is_white_space(document.last()),
    ensures
        container_on(left + document + right, f) == container_in(f(document)),
        container_on(left, f) is None,
{
    trimming_leaves_the_middle(left, document, right, CharClass::White);
    trimming_takes_the_class_off(left, CharClass::White);
}

/// Where documents are read by a function, the containers that are found are
/// those of the lines, one by one.
pub proof fn docker_containers_are_those_of_the_lines<R: Fn(&str) -> Option<DockerPsRow>>(
    lines: Seq<Seq<char>>,
    read: R,
    found: Seq<Option<ContainerView>>,
    f: spec_fn(Seq<char>) -> Option<DockerPsRow>,
)
    requires
        are_docker_readings(lines, read, found),
        forall|text: &str, row: Option<DockerPsRow>| #[trigger]
            call_ensures(read, (text,), row) ==> row == f(text@),
    ensures
        found.len() == lines.len(),
        forall|i: int| 0 <= i < lines.len() ==> #[trigger] found[i] == container_on(lines[i], f),
{
    assert forall|i: int| 0 <= i < lines.len() implies #[trigger] found[i] == container_on(
        lines[i],
        f,
    ) by {
        assert(is_docker_reading(lines[i], read, found[i]));
    }
}

/// An output of one line tells of the container on it, if there is one.
pub proof fn one_line_tells_of_one_container(
    line: Seq<char>,
    f: spec_fn(Seq<char>) -> Option<DockerPsRow>,
)
    requires
        line.len() > 0,
        forall|i: int| 0 <= i < line.len() ==> #[trigger] line[i] != '\n',
    ensures
        docker_containers(seq![], f) == Seq::<ContainerView>::empty(),
        match container_on(line, f) {
            Some(container) => docker_containers(line, f) == seq![container],
            None => docker_containers(line, f) == Seq::<ContainerView>::empty(),
        },
{
    lines_end_at_line_feeds(line, seq![]);
    let on = |line: Seq<char>| container_on(line, f);
    let none: Seq<Option<ContainerView>> = seq![];
    assert(lines_spec(seq![]).map_values(on) =~= none);
    assert(lines_spec(line).map_values(on) =~= none.push(container_on(line, f)));
    assert(none.push(container_on(line, f)).drop_last() =~= none);
    assert(kept(none) =~= seq![]);
    if let Some(container) = container_on(line, f) {
        assert(Seq::<ContainerView>::empty().push(container) =~= seq![container]);
    }
}

/// What is said of readings and reports is what they hold.
pub proof fn views_are_what_is_reported<F>(
    text: Option<String>,
    disks: Seq<DiskStats>,
    gpus: Seq<GpuInfo<F>>,
    containers: Seq<DockerContainer>,
    row: NvidiaRow,
    other: RocmRow,
)
    ensures
        match text {
            Some(s) => option_view(text) == Some(s@),
            None => option_view(text) is None,
        },
        stats_views(disks).len() == disks.len(),
        forall|i: int|
            0 <= i < disks.len() ==> {
                let view = #[trigger] stats_views(disks)[i];
                view.name == disks[i].name@ && view.usage == disks[i].usage && view.used_size
                    == disks[i].used_size@ && view.total_size == disks[i].total_size@
            },
        gpu_views(gpus).len() == gpus.len(),
        forall|i: int|
            0 <= i < gpus.len() ==> {
                let view = #[trigger] gpu_views(gpus)[i];
                &&& view.name == gpus[i].name@ && view.usage == gpus[i].usage && view.vram_used
                    == gpus[i].vram_used@ && view.vram_total == gpus[i].vram_total@
                &&& match gpus[i].vram_usage {
                    Percent::Hundredths(n) => view.vram_usage == PercentView::<F>::Hundredths(
                        n as nat,
                    ),
                    Percent::Measured(x) => view.vram_usage == PercentView::Measured(x),
                }
                &&& gpu_option_view(Some(gpus[i])) == Some(view)
            },
        gpu_option_view::<F>(None) is None,
        container_views(containers).len() == containers.len(),
        forall|i: int|
            0 <= i < containers.len() ==> {
                let view = #[trigger] container_views(containers)[i];
                &&& view.name == containers[i].name@ && view.status == containers[i].status@
                    && view.created == containers[i].created@ && view.image == containers[i].image@
                    && view.ports == containers[i].ports@
                &&& container_option_view(Some(containers[i])) == Some(view)
            },
        container_option_view(None) is None,
        row@.name == row.name@ && row@.usage == row.usage@ && row@.used_mib == row.used_mib
            && row@.total_mib == row.total_mib,
        other@.name == other.name@ && other@.usage == other.usage@ && other@.memory
            == other.memory@,
        TOOL_TIMEOUT == 5,
{
}

/// A model name ends at the first `@`, wherever it stands, and white space
/// around it is taken off.
pub proof fn model_name_ends_at_the_at_sign(brand: Seq<char>, before: Seq<char>, behind: Seq<char>)
    requires
        forall|i: int| 0 <= i < before.len() ==> #[trigger] before[i] != '@',
    ensures
        ({
            let s = join_spec(words_spec(without_noise(brand)), seq![' ']);
            &&& s == before + seq!['@'] + behind ==> model_name(brand) == trimmed(before)
            &&& s == before ==> model_name(brand) == trimmed(before)
        }),
{
    reveal_strlit(" ");
    assert(" "@ =~= seq![' ']);
    let at = CharClass::Just('@');
    let n = before.len() as int;
    let s = before + seq!['@'] + behind;
    assert forall|j: int| 0 <= j < n implies !at.holds(#[trigger] before[j]) by {}
    assert forall|j: int| 0 <= j < n implies !at.holds(#[trigger] s[j]) by {
        assert(s[j] == before[j]);
    }
    lemma_find_is(before, at, n);
    lemma_find_is(s, at, n);
    assert(s.take(n) =~= before);
    assert(before.take(n) =~= before);
}

} // verus!
