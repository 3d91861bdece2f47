use zed_markdown::dock::{Axis, DockPosition};
use zed_markdown::shell::{
    to_cmd_variable, to_powershell_variable, to_windows_shell_type, to_windows_shell_variable,
    WindowsShellType,
};
use zed_markdown::tools::OpenFileTool;

#[test]
fn shell_type_by_name_or_path() {
    assert_eq!(to_windows_shell_type("powershell"), WindowsShellType::Powershell);
    assert_eq!(
        to_windows_shell_type("C:\\Tools\\pwsh.exe"),
        WindowsShellType::Powershell
    );
    assert_eq!(to_windows_shell_type("cmd"), WindowsShellType::Cmd);
    assert_eq!(
        to_windows_shell_type("C:\\Windows\\cmd.exe"),
        WindowsShellType::Cmd
    );
    assert_eq!(to_windows_shell_type("bash"), WindowsShellType::Other);
    assert_eq!(to_windows_shell_type("pwsh2"), WindowsShellType::Other);
}

#[test]
fn cmd_variables() {
    assert_eq!(to_cmd_variable("${HOME}".into()), "%HOME%");
    assert_eq!(to_cmd_variable("$HOME".into()), "%HOME%");
    assert_eq!(to_cmd_variable("${A:-b}".into()), "${A:-b}");
    assert_eq!(to_cmd_variable("plain".into()), "plain");
}

#[test]
fn powershell_variables() {
    assert_eq!(to_powershell_variable("${HOME}".into()), "$env:HOME");
    assert_eq!(to_powershell_variable("$HOME".into()), "$env:HOME");
    assert_eq!(to_powershell_variable("${A:-b}".into()), "${A:-b}");
    assert_eq!(to_powershell_variable("plain".into()), "plain");
}

#[test]
fn shell_variable_by_type() {
    assert_eq!(
        to_windows_shell_variable(WindowsShellType::Cmd, "$X".into()),
        "%X%"
    );
    assert_eq!(
        to_windows_shell_variable(WindowsShellType::Powershell, "$X".into()),
        "$env:X"
    );
    assert_eq!(
        to_windows_shell_variable(WindowsShellType::Other, "$X".into()),
        "$X"
    );
}

#[test]
fn dock_labels() {
    assert_eq!(DockPosition::Left.label(), "left");
    assert_eq!(DockPosition::Bottom.label(), "bottom");
    assert_eq!(DockPosition::Right.label(), "right");
}

#[test]
fn open_file_tool_name() {
    assert_eq!(OpenFileTool.name(), "open-file");
    assert!(!OpenFileTool.needs_confirmation());
}

#[test]
fn dock_axes() {
    assert_eq!(DockPosition::Left.axis(), Axis::Horizontal);
    assert_eq!(DockPosition::Right.axis(), Axis::Horizontal);
    assert_eq!(DockPosition::Bottom.axis(), Axis::Vertical);
}
