use nulnet::telemetry::{
    asks_rocm, build_cpu_info, build_disk_stats, build_memory_stats, clean_cpu_brand,
    collect_os_info, default_cached_telemetry_size, disk_display_name, docker_container,
    empty_ports_placeholder, format_dynamic_size, nvidia_gpu, nvidia_row, parse_docker_ps_json,
    parse_docker_ps_line, parse_nvidia_smi, parse_nvidia_smi_line, parse_os_release,
    parse_rocm_smi_csv, parse_sysinfo_os, rocm_columns, rocm_gpu, rocm_row, should_report_disk,
    CpuReading, DiskReading, DockerPsRow, GpuInfo, HostReadings, LoadAverage, Percent,
    Readings, TelemetryCollector, Tool,
};

fn read(text: &str) -> Option<f64> {
    text.parse::<f64>().ok()
}

fn round2(v: f64) -> f64 {
    (v * 100.0).round() / 100.0
}

fn read_rounded(text: &str) -> Option<f64> {
    read(text).map(round2)
}

fn vram_usage(gpu: &GpuInfo<f64>) -> f64 {
    match gpu.vram_usage {
        Percent::Hundredths(n) => n as f64 / 100.0,
        Percent::Measured(x) => x,
    }
}

fn text_of(value: &serde_json::Value, key: &str) -> Option<String> {
    match value.get(key) {
        None => Some(String::new()),
        Some(v) => v.as_str().map(|s| s.to_string()),
    }
}

fn read_row(text: &str) -> Option<DockerPsRow> {
    let value: serde_json::Value = serde_json::from_str(text).ok()?;
    Some(DockerPsRow {
        names: text_of(&value, "Names")?,
        status: text_of(&value, "Status")?,
        created_at: text_of(&value, "CreatedAt")?,
        image: text_of(&value, "Image")?,
        ports: text_of(&value, "Ports")?,
    })
}

fn row(names: &str, ports: &str) -> DockerPsRow {
    DockerPsRow {
        names: names.to_string(),
        status: "Up".to_string(),
        created_at: "then".to_string(),
        image: "nginx".to_string(),
        ports: ports.to_string(),
    }
}

fn disk(name: &str, file_system: &str, total_space: u64, available_space: u64) -> DiskReading {
    DiskReading {
        name: name.to_string(),
        file_system: file_system.to_string(),
        mount_point: "/mnt".to_string(),
        total_space,
        available_space,
    }
}

#[test]
fn clean_cpu_brand_strips_trademark_noise() {
    let brand = "Intel(R) Xeon(R) CPU E5-2680 v4 @ 2.40GHz";
    assert_eq!(clean_cpu_brand(brand), "Intel Xeon E5-2680 v4");
}

#[test]
fn clean_cpu_brand_leaves_a_tidy_name() {
    assert_eq!(
        clean_cpu_brand("AMD Ryzen(tm) 7   5800X 8-Core Processor  "),
        "AMD Ryzen 7 5800X 8-Core"
    );
    assert_eq!(clean_cpu_brand("Intel(r) Core(TM) i7 @ 3 @ 4"), "Intel Core i7");
    assert_eq!(clean_cpu_brand("@ 2GHz"), "");
    assert_eq!(clean_cpu_brand("CPU"), "CPU");
    assert_eq!(clean_cpu_brand(""), "");
}

#[test]
fn format_dynamic_size_units() {
    assert_eq!(format_dynamic_size(0), "0 B");
    assert_eq!(format_dynamic_size(512), "512 B");
    assert_eq!(format_dynamic_size(2048), "2.00 KB");
}

#[test]
fn format_dynamic_size_at_the_limits() {
    assert_eq!(format_dynamic_size(1023), "1023 B");
    assert_eq!(format_dynamic_size(1024), "1.00 KB");
    assert_eq!(format_dynamic_size((1 << 20) - 1), "1024.00 KB");
    assert_eq!(format_dynamic_size(1 << 20), "1.00 MB");
    assert_eq!(format_dynamic_size(8_860_467), "8.45 MB");
    assert_eq!(format_dynamic_size(1 << 30), "1.00 GB");
    assert_eq!(format_dynamic_size(200 << 30), "200.00 GB");
    assert_eq!(format_dynamic_size(1 << 40), "1.00 TB");
    assert_eq!(format_dynamic_size(u64::MAX), "16777216.00 TB");
    assert_eq!(default_cached_telemetry_size(), format_dynamic_size(0));
}

#[test]
fn parse_nvidia_smi_line_valid() {
    let gpu = parse_nvidia_smi_line(
        "Tesla V100-SXM2-16GB, 45, 4844, 16384",
        &read,
    )
    .unwrap();
    assert_eq!(gpu.name, "Tesla V100-SXM2-16GB");
    assert_eq!(gpu.usage, 45.0);
    assert_eq!(vram_usage(&gpu), 29.57);
    assert_eq!(gpu.vram_used, "4.73 GB");
    assert_eq!(gpu.vram_total, "16.00 GB");
}

#[test]
fn parse_nvidia_smi_line_rejects_short_row() {
    assert!(parse_nvidia_smi_line("GPU only", &read).is_none());
}

#[test]
fn parse_nvidia_smi_line_rejects_what_is_no_number() {
    for line in [
        "", "a,b", "a,1,2", "a,x,2,3", "a,1,x,3", "a,1,2,x", "a,1,2,3,4", "a,1,-2,3", "a,1,2.5,3",
    ] {
        assert!(parse_nvidia_smi_line(line, &read).is_none(), "{:?}", line);
    }
    let idle = parse_nvidia_smi_line(" GPU , 0.5 ,0, 0", &read).unwrap();
    assert_eq!(idle.name, "GPU");
    assert_eq!(idle.usage, 0.5);
    assert_eq!(idle.vram_used, "0 B");
    assert_eq!(vram_usage(&idle), 0.0);
}

#[test]
fn nvidia_output_is_read_line_by_line() {
    let gpus = parse_nvidia_smi("A, 1, 512, 1024\nnoise\r\nB, 2, 1, 4\n", &read);
    assert_eq!(gpus.len(), 2);
    assert_eq!(gpus[0].name, "A");
    assert_eq!(vram_usage(&gpus[0]), 50.0);
    assert_eq!(gpus[1].name, "B");
    assert_eq!(gpus[1].vram_total, "4.00 MB");
    assert!(!asks_rocm(&gpus));
    assert!(asks_rocm(&parse_nvidia_smi("", &read)));
}

#[test]
fn nvidia_sizes_may_be_large() {
    let large = (u64::MAX >> 20).to_string();
    let gpus = parse_nvidia_smi(&format!("A, 1, {}, {}", large, large), &read);
    assert_eq!(gpus[0].vram_total, "16777216.00 TB");
    let larger = (1u64 << 44).to_string();
    let gpus = parse_nvidia_smi(&format!("A, 1, 0, {}\nA, x, {}, 0", larger, u64::MAX), &read);
    assert_eq!(gpus.len(), 1);
    assert_eq!(gpus[0].vram_total, "16777216.00 TB");
    assert_eq!(vram_usage(&gpus[0]), 0.0);
    let gpu = parse_nvidia_smi_line(&format!("A, 1, {}, {}", u64::MAX, u64::MAX), &read).unwrap();
    assert_eq!(gpu.vram_used, "17592186044416.00 TB");
    assert_eq!(vram_usage(&gpu), 100.0);
    assert_eq!(nvidia_row("A, 1, 2, 3").unwrap().usage, "1");
    assert!(nvidia_gpu::<f64>(nvidia_row("A, 1, 2, 3").unwrap(), None).is_none());
}

#[test]
fn parse_rocm_smi_csv_extracts_rows() {
    let csv = "card,GPU use (%),GPU memory use (%)\n\
        gfx0,12.0,34.5\n";
    let gpus = parse_rocm_smi_csv(csv, &read, &read_rounded);
    assert_eq!(gpus.len(), 1);
    assert_eq!(gpus[0].name, "gfx0");
    assert_eq!(gpus[0].usage, 12.0);
    assert_eq!(vram_usage(&gpus[0]), 34.5);
}

#[test]
fn parse_rocm_smi_csv_rejects_missing_columns() {
    assert!(parse_rocm_smi_csv("card,other\nx,1", &read, &read_rounded).is_empty());
}

#[test]
fn rocm_columns_are_found_by_their_headings() {
    let columns = rocm_columns("GPU memory use (%),x,gpu USE,Card series").unwrap();
    assert_eq!((columns.name, columns.usage, columns.memory), (3, 2, 0));
    assert!(rocm_columns("card,gpu use").is_none());
    assert!(rocm_columns("").is_none());
    let row = rocm_row(" 7 ,a, 8 , gfx1 ,z", &columns).unwrap();
    assert_eq!((row.name.as_str(), row.usage.as_str(), row.memory.as_str()), ("gfx1", "8", "7"));
    assert!(rocm_row("7,a,8", &columns).is_none());
    assert!(rocm_gpu::<f64>(row, Some(1.0), None).is_none());
}

#[test]
fn rocm_memory_is_rounded_and_usage_is_not() {
    let csv = "card,GPU use (%),GPU memory use (%)\r\n\
        a,1.23456,6.54321\r\n\
        b,x,1\n\
        c,1,x\n\
        short\n\
        d,2,3";
    let gpus = parse_rocm_smi_csv(csv, &read, &read_rounded);
    assert_eq!(gpus.len(), 2);
    assert_eq!(gpus[0].usage, 1.23456);
    assert_eq!(vram_usage(&gpus[0]), 6.54);
    assert_eq!(gpus[0].vram_used, "N/A");
    assert_eq!(gpus[0].vram_total, "N/A");
    assert_eq!(gpus[1].name, "d");
    assert!(parse_rocm_smi_csv("", &read, &read_rounded).is_empty());
}

#[test]
fn parse_docker_ps_line_maps_fields() {
    let line = r#"{"Names":"web","Status":"Up 2 hours","CreatedAt":"2024-01-01 12:00:00 +0000 UTC","Image":"nginx:latest","Ports":"0.0.0.0:80->80/tcp"}"#;
    let c = parse_docker_ps_line(line, &read_row).unwrap();
    assert_eq!(c.name, "web");
    assert_eq!(c.status, "Up 2 hours");
    assert_eq!(c.created, "2024-01-01 12:00:00 +0000 UTC");
    assert_eq!(c.image, "nginx:latest");
    assert_eq!(c.ports, "0.0.0.0:80->80/tcp");
}

#[test]
fn parse_docker_ps_line_empty_ports_placeholder() {
    let line = r#"{"Names":"db","Status":"Exited (0) 1 day ago","CreatedAt":"2024-01-01","Image":"postgres:16","Ports":""}"#;
    let c = parse_docker_ps_line(line, &read_row).unwrap();
    assert_eq!(c.ports, "—");
}

#[test]
fn parse_docker_ps_json_skips_blank_lines() {
    let text = "\n\n";
    assert!(parse_docker_ps_json(text, &read_row).is_empty());
}

#[test]
fn parse_docker_ps_json_keeps_the_order() {
    let text = "  {\"Names\":\"b\"}\nnoise\n{\"Names\":\"\"}\n{}\r\n \t\n{\"Names\":\"a\"}  ";
    let found = parse_docker_ps_json(text, &read_row);
    assert_eq!(found.len(), 2);
    assert_eq!(found[0].name, "b");
    assert_eq!(found[0].ports, "—");
    assert_eq!(found[1].name, "a");
}

#[test]
fn docker_outputs_add_up() {
    let names = |text: &str| -> Vec<String> {
        parse_docker_ps_json(text, &read_row).into_iter().map(|c| c.name).collect()
    };
    let outputs = [
        "", "\n", "{\"Names\":\"a\"}", "{\"Names\":\"b\"}\r", "noise\n{\"Names\":\"c\"}\n",
        " \r\n{\"Names\":\"d\"}\r\n{\"Names\":\"\"}",
    ];
    for a in outputs {
        for b in outputs {
            let mut both = names(a);
            both.extend(names(b));
            assert_eq!(names(&format!("{}\n{}", a, b)), both);
        }
    }
    for c in parse_docker_ps_json(&outputs.join("\n"), &read_row) {
        assert!(!c.name.is_empty() && !c.ports.is_empty());
    }
}

#[test]
fn a_container_needs_a_name() {
    assert!(docker_container(None).is_none());
    assert!(docker_container(Some(row("", "80/tcp"))).is_none());
    let c = docker_container(Some(row("web", "80/tcp"))).unwrap();
    assert_eq!((c.name.as_str(), c.ports.as_str()), ("web", "80/tcp"));
    assert_eq!(c.clone().image, "nginx");
    assert_eq!((c.status.as_str(), c.created.as_str(), c.image.as_str()), ("Up", "then", "nginx"));
}

#[test]
fn empty_ports_placeholder_formats() {
    assert_eq!(empty_ports_placeholder(""), "—");
    assert_eq!(empty_ports_placeholder("8080/tcp"), "8080/tcp");
}

#[test]
fn parse_os_release_reads_pretty_name() {
    let content = "NAME=\"Debian\"\nPRETTY_NAME=\"Debian GNU/Linux 13 (trixie)\"\n";
    assert_eq!(
        parse_os_release(content),
        Some("Debian GNU/Linux 13 (trixie)".to_string()),
    );
}

#[test]
fn parse_os_release_missing_returns_none() {
    assert!(parse_os_release("NAME=\"Debian\"\n").is_none());
}

#[test]
fn parse_os_release_takes_the_first_name() {
    assert_eq!(
        parse_os_release(" PRETTY_NAME=x\nPRETTY_NAME=\"\"a\"b\"\nPRETTY_NAME=c"),
        Some("a\"b".to_string())
    );
    assert_eq!(parse_os_release("PRETTY_NAME="), Some(String::new()));
}

#[test]
fn the_system_is_named() {
    let text = |s: &str| Some(s.to_string());
    assert_eq!(parse_sysinfo_os(None, text("12")), None);
    assert_eq!(parse_sysinfo_os(text("Arch"), None), text("Arch"));
    assert_eq!(parse_sysinfo_os(text("Arch"), text("")), text("Arch"));
    assert_eq!(parse_sysinfo_os(text("Debian"), text("12")), text("Debian 12"));
    let file = text("PRETTY_NAME=\"Trixie\"");
    assert_eq!(collect_os_info(file, text("Debian"), text("12")), text("Trixie"));
    assert_eq!(collect_os_info(text("ID=x"), text("Debian"), text("12")), text("Debian 12"));
    assert_eq!(collect_os_info(None, text("Debian"), None), text("Debian"));
    assert_eq!(collect_os_info(None, None, None), None);
}

#[test]
fn the_cpu_is_described() {
    let cpu = |brand: &str, frequency: u64| CpuReading { brand: brand.to_string(), frequency };
    let brand = "Intel(R) Xeon(R) CPU E5-2680 v4 @ 2.40GHz";
    let cpus: Vec<CpuReading> = (0..28).map(|i| cpu(if i == 0 { brand } else { "" }, 2397)).collect();
    let info = build_cpu_info(&cpus, Some(14)).unwrap();
    assert_eq!(info.model, "Intel Xeon E5-2680 v4");
    assert_eq!((info.cores, info.threads, info.frequency_mhz), (14, 28, 2397));
    assert_eq!(info.display, "Intel Xeon E5-2680 v4 @ 14x 2.397GHz");
    assert_eq!(build_cpu_info(&cpus, None).unwrap().cores, 28);
    assert!(build_cpu_info(&vec![], Some(4)).is_none());
    assert!(build_cpu_info(&vec![cpu("", 1)], Some(4)).is_none());
    assert_eq!(build_cpu_info(&vec![cpu("x", 0)], Some(1)).unwrap().display, "x @ 1x 0.000GHz");
}

#[test]
fn memory_is_described() {
    let stats = build_memory_stats(17_169_973_580, 10_715_943_403);
    assert_eq!((stats.usage, stats.used_gb, stats.total_gb), (6241, 998, 1599));
    let none = build_memory_stats(0, 5);
    assert_eq!((none.usage, none.used_gb, none.total_gb), (0, 0, 0));
}

#[test]
fn some_disks_are_not_reported() {
    assert!(should_report_disk(&disk("/dev/sda1", "ext4", 1, 0)));
    assert!(!should_report_disk(&disk("/dev/sda1", "ext4", 0, 0)));
    for fs in ["overlay", "Overlay", "tmpfs", "TMPFS", "devtmpfs", "squashfs", "efivarfs", "autofs"]
    {
        assert!(!should_report_disk(&disk("x", fs, 1, 0)), "{}", fs);
    }
    assert!(!should_report_disk(&disk("OVERLAY", "ext4", 1, 0)));
    assert!(should_report_disk(&disk("tmpfs", "ext4", 1, 0)));
    assert_eq!(disk_display_name(&disk("/dev/sda1", "ext4", 1, 0)), "/dev/sda1");
    assert_eq!(disk_display_name(&disk("", "ext4", 1, 0)), "/mnt");
}

#[test]
fn reported_disks_are_described_in_order() {
    let stats = build_disk_stats(&vec![
        disk("/dev/sda1", "ext4", 200 << 30, 50 << 30),
        disk("none", "tmpfs", 1 << 30, 0),
        disk("", "xfs", 1000, 2000),
    ]);
    assert_eq!(stats.len(), 2);
    assert_eq!(stats[0].name, "/dev/sda1");
    assert_eq!(stats[0].usage, 7500);
    assert_eq!(stats[0].used_size, "150.00 GB");
    assert_eq!(stats[0].total_size, "200.00 GB");
    assert_eq!(stats[1].name, "/mnt");
    assert_eq!((stats[1].usage, stats[1].used_size.as_str()), (0, "0 B"));
}

#[test]
fn tools_are_asked_with_their_arguments() {
    assert_eq!(Tool::NvidiaSmi.program(), "nvidia-smi");
    assert_eq!(
        Tool::NvidiaSmi.args(),
        vec![
            "--query-gpu=name,utilization.gpu,memory.used,memory.total",
            "--format=csv,noheader,nounits",
        ]
    );
    assert_eq!(Tool::RocmSmi.program(), "rocm-smi");
    assert_eq!(
        Tool::RocmSmi.args(),
        vec!["--showuse", "--showmemuse", "--showproductname", "--csv"]
    );
    assert_eq!(Tool::Docker.program(), "docker");
    assert_eq!(Tool::Docker.args(), vec!["ps", "-a", "--format", "{{json .}}"]);
}

#[test]
fn a_snapshot_holds_the_readings() {
    let cpus = vec![CpuReading { brand: "x".to_string(), frequency: 1000 }];
    let collector = TelemetryCollector::new(HostReadings {
        cpus,
        physical_cores: None,
        os_release: None,
        system_name: Some("Debian".to_string()),
        system_version: Some("13".to_string()),
    });
    let readings = Readings {
        timestamp: 1_747_561_234,
        cpu_usage: 14.23,
        gpu: parse_nvidia_smi("A, 1, 2, 4", &read),
        total_memory: 4 << 30,
        used_memory: 1 << 30,
        disks: vec![disk("d", "ext4", 10, 5), disk("o", "overlay", 10, 5)],
        containers: vec![docker_container(Some(row("web", ""))).unwrap()],
        uptime_seconds: 864_312,
        load_average: LoadAverage { one: 1.23, five: 0.98, fifteen: 0.74 },
    };
    let mut snapshot = collector.collect(readings);
    assert_eq!(snapshot.timestamp, 1_747_561_234);
    assert_eq!(snapshot.os.as_deref(), Some("Debian 13"));
    assert_eq!(snapshot.cpu.usage, 14.23);
    assert_eq!(snapshot.cpu.info.as_ref().unwrap().display, "x @ 1x 1.000GHz");
    assert_eq!(snapshot.gpu[0].name, "A");
    assert_eq!(snapshot.memory.usage, 2500);
    assert_eq!((snapshot.memory.used_gb, snapshot.memory.total_gb), (100, 400));
    assert_eq!(snapshot.disk.len(), 1);
    assert_eq!(snapshot.disk[0].usage, 5000);
    assert_eq!(snapshot.containers[0].name, "web");
    assert_eq!(snapshot.uptime_seconds, 864_312);
    assert_eq!(snapshot.load_average.five, 0.98);
    assert_eq!(snapshot.cached_telemetry_size, "0 B");
    snapshot.set_cached_telemetry_disk(8_860_467);
    assert_eq!(snapshot.cached_telemetry_size, "8.45 MB");
    assert_eq!(snapshot.timestamp, 1_747_561_234);
}
