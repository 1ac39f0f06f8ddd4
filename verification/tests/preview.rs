use gfty::preview::detected_graphics_format;

#[test]
fn detects_graphics_protocols_from_terminal_names() {
    assert_eq!(detected_graphics_format("xterm-256color", "iTerm.app"), Some("iterm"));
    assert_eq!(detected_graphics_format("xterm-kitty", ""), Some("kitty"));
    assert_eq!(detected_graphics_format("xterm-ghostty", ""), Some("kitty"));
    assert_eq!(detected_graphics_format("xterm", "WezTerm"), Some("kitty"));
    assert_eq!(detected_graphics_format("foot", ""), Some("sixels"));
    assert_eq!(detected_graphics_format("MLTERM", ""), Some("sixels"));
    assert_eq!(detected_graphics_format("xterm-sixel", ""), Some("sixels"));
    assert_eq!(detected_graphics_format("xterm-256color", "Apple_Terminal"), None);
    assert_eq!(detected_graphics_format("", ""), None);
}

#[test]
fn iterm_program_wins_over_terminal_name() {
    assert_eq!(detected_graphics_format("xterm-kitty", "iterm2"), Some("iterm"));
    assert_eq!(detected_graphics_format("foot", "ghostty"), Some("kitty"));
}
