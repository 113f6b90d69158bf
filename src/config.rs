//! Editor settings and their defaults.
use vstd::prelude::*;

verus! {

#[derive(Debug, Clone)]
/// All settings, by area.
pub struct Config {
    pub editor: EditorConfig,
    pub theme: ThemeConfig,
    pub keybindings: KeybindingsConfig,
    pub sidebar: SidebarConfig,
    pub session: SessionConfig,
}

#[derive(Debug, Clone)]
pub struct EditorConfig {
    pub tab_width: usize,
    pub use_spaces: bool,
    pub auto_indent: bool,
    pub show_line_numbers: bool,
    pub highlight_current_line: bool,
    pub word_wrap: bool,
    pub auto_save: bool,
    pub auto_save_interval: u64,
    pub rainbow_brackets: bool,
    pub highlight_matching_bracket: bool,
}

#[derive(Debug, Clone)]
pub struct ThemeConfig {
    pub name: String,
    pub syntax_theme: String,
}

#[derive(Debug, Clone)]
pub struct KeybindingsConfig {
    pub save: String,
    pub quit: String,
    pub open: String,
    pub find: String,
    pub replace: String,
    pub goto_line: String,
    pub toggle_sidebar: String,
}

#[derive(Debug, Clone)]
pub struct SidebarConfig {
    pub show_hidden_files: bool,
    pub show_git_status: bool,
    pub width: u16,
}

#[derive(Debug, Clone)]
pub struct SessionConfig {
    pub auto_save: bool,
    pub auto_restore: bool,
    pub workspace_sessions: bool,
    pub restore_cursor_position: bool,
    pub restore_open_buffers: bool,
}

impl Default for Config {
    fn default() -> (c: Config)
        ensures
            c.editor.tab_width == 4,
            c.editor.use_spaces,
            c.editor.auto_indent,
            c.editor.auto_save_interval == 30,
            c.sidebar.width == 25,
            !c.sidebar.show_hidden_files,
            c.session.auto_save,
    {
        Config {
            editor: EditorConfig {
                tab_width: 4,
                use_spaces: true,
                auto_indent: true,
                show_line_numbers: true,
                highlight_current_line: true,
                word_wrap: false,
                auto_save: false,
                auto_save_interval: 30,
                rainbow_brackets: true,
                highlight_matching_bracket: true,
            },
            theme: ThemeConfig {
                name: "default".to_owned(),
                syntax_theme: "base16-ocean.dark".to_owned(),
            },
            keybindings: KeybindingsConfig {
                save: "Ctrl+S".to_owned(),
                quit: "Ctrl+Q".to_owned(),
                open: "Ctrl+O".to_owned(),
                find: "Ctrl+F".to_owned(),
                replace: "Ctrl+H".to_owned(),
                goto_line: "Ctrl+G".to_owned(),
                toggle_sidebar: "Ctrl+B".to_owned(),
            },
            sidebar: SidebarConfig {
                show_hidden_files: false,
                show_git_status: true,
                width: 25,
            },
            session: SessionConfig {
                auto_save: true,
                auto_restore: true,
                workspace_sessions: true,
                restore_cursor_position: true,
                restore_open_buffers: true,
            },
        }
    }
}

} // verus!
