use app_manager::format::{
    csv_escape, extract_path, format_bytes, format_install_date, format_memory,
    format_memory_csv, format_size, split_command, u64_to_string,
};

#[test]
fn decimal_rendering() {
    assert_eq!(u64_to_string(0), "0");
    assert_eq!(u64_to_string(7), "7");
    assert_eq!(u64_to_string(105), "105");
    assert_eq!(u64_to_string(18_446_744_073_709_551_615), "18446744073709551615");
}

#[test]
fn memory_units_and_rounding() {
    assert_eq!(format_memory(500), "500 B");
    assert_eq!(format_memory(1024), "1 KB");
    assert_eq!(format_memory(10_240), "10 KB");
    assert_eq!(format_memory(1_638_400), "1.6 MB");
    assert_eq!(format_memory(3_221_225_472), "3.0 GB");
    assert_eq!(format_memory(1_073_741_824), "1.0 GB");
    assert_eq!(format_memory_csv(1_638_400), "1.6 MB");
}

#[test]
fn bytes_zero_is_a_dash() {
    assert_eq!(format_bytes(0), "\u{2014}");
    assert_eq!(format_bytes(2048), "2 KB");
}

#[test]
fn size_units_from_kilobytes() {
    assert_eq!(format_size(0), "--");
    assert_eq!(format_size(512), "512 KB");
    assert_eq!(format_size(1536), "1.5 MB");
    assert_eq!(format_size(2_097_152), "2.0 GB");
}

#[test]
fn install_date_forms() {
    assert_eq!(format_install_date("20230115"), "2023-01-15");
    assert_eq!(format_install_date(""), "--");
    assert_eq!(format_install_date("2023"), "2023");
}

#[test]
fn csv_escaping() {
    assert_eq!(csv_escape("plain"), "plain");
    assert_eq!(csv_escape("a,b"), "\"a,b\"");
    assert_eq!(csv_escape("say \"hi\""), "\"say \"\"hi\"\"\"");
    assert_eq!(csv_escape("two\nlines"), "\"two\nlines\"");
}

#[test]
fn split_command_quoted() {
    let (exe, args) = split_command(r#""C:\Program Files\app.exe" /S /quiet"#);
    assert_eq!(exe, r"C:\Program Files\app.exe");
    assert_eq!(args, "/S /quiet");
}

#[test]
fn split_command_unquoted_exe_boundary() {
    let (exe, args) = split_command(r"C:\Program Files (x86)\App\uninstall.exe /silent");
    assert_eq!(exe, r"C:\Program Files (x86)\App\uninstall.exe");
    assert_eq!(args, "/silent");
}

#[test]
fn split_command_whitespace_fallback() {
    let (exe, args) = split_command("msiexec /x {GUID}");
    assert_eq!(exe, "msiexec");
    assert_eq!(args, "/x {GUID}");
    let (exe, args) = split_command("bare");
    assert_eq!(exe, "bare");
    assert_eq!(args, "");
}

#[test]
fn extract_path_forms() {
    assert_eq!(extract_path(r#""C:\a b\x.exe" --flag"#), r"C:\a b\x.exe");
    assert_eq!(extract_path(r"C:\a b\x.EXE --flag"), r"C:\a b\x.EXE");
    assert_eq!(extract_path(r"C:\w\drv.sys extra"), r"C:\w\drv.sys");
    assert_eq!(extract_path("plain arguments here"), "plain");
    assert_eq!(extract_path(""), "");
}

use app_manager::format::{parse_command, shell_split};

#[test]
fn shell_split_handles_quotes_and_blanks() {
    assert_eq!(shell_split("a b  c"), vec!["a", "b", "c"]);
    assert_eq!(shell_split("--path \"C:\\a b\" -x"), vec!["--path", "C:\\a b", "-x"]);
    assert_eq!(shell_split(""), Vec::<String>::new());
    assert_eq!(shell_split("   "), Vec::<String>::new());
}

#[test]
fn parse_command_quoted_and_plain() {
    let (exe, args) = parse_command("\"C:\\Program Files\\app.exe\" -a \"b c\"");
    assert_eq!(exe, "C:\\Program Files\\app.exe");
    assert_eq!(args, vec!["-a", "b c"]);
    let (exe, args) = parse_command("notepad.exe file.txt");
    assert_eq!(exe, "notepad.exe");
    assert_eq!(args, vec!["file.txt"]);
    let (exe, args) = parse_command("  bare  ");
    assert_eq!(exe, "bare");
    assert_eq!(args, Vec::<String>::new());
    let (exe, args) = parse_command("");
    assert_eq!(exe, "");
    assert_eq!(args, Vec::<String>::new());
}
