use trek::style::desc;

#[test]
fn description_is_drawn_white() {
    assert_eq!(desc("A Trek Tool for FiveM dev."), "\x1b[37mA Trek Tool for FiveM dev.\x1b[0m");
    assert_eq!(desc(""), "\x1b[37m\x1b[0m");
}
