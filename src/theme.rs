//! Colour themes for the editor's interface and syntax, by name.
use vstd::prelude::*;

verus! {

#[derive(Debug, Clone)]
pub struct Theme {
    pub name: String,
    pub ui: UiTheme,
    pub syntax: SyntaxTheme,
}

#[derive(Debug, Clone)]
pub struct UiTheme {
    pub background: String,
    pub foreground: String,
    pub selection: String,
    pub cursor: String,
    pub current_line: String,
    pub line_numbers: String,
    pub status_bar: StatusBarTheme,
    pub sidebar: SidebarTheme,
    pub border: String,
}

#[derive(Debug, Clone)]
pub struct StatusBarTheme {
    pub background: String,
    pub foreground: String,
    pub mode_normal: String,
    pub mode_insert: String,
    pub mode_visual: String,
}

#[derive(Debug, Clone)]
pub struct SidebarTheme {
    pub background: String,
    pub foreground: String,
    pub selected: String,
    pub git_modified: String,
    pub git_added: String,
    pub git_deleted: String,
    pub folder: String,
    pub file: String,
}

#[derive(Debug, Clone)]
pub struct SyntaxTheme {
    pub keyword: String,
    pub string: String,
    pub comment: String,
    pub function: String,
    pub variable: String,
    pub number: String,
    pub operator: String,
    pub types: String,
}

impl Theme {
    pub fn default_dark() -> (t: Theme)
        ensures
            t.name@ == "Dark"@,
    {
        proof {
            reveal_strlit("Dark");
        }
        Theme {
            name: "Dark".to_owned(),
            ui: UiTheme {
                background: "#1e1e2e".to_owned(),
                foreground: "#cdd6f4".to_owned(),
                selection: "#45475a".to_owned(),
                cursor: "#f5e0dc".to_owned(),
                current_line: "#313244".to_owned(),
                line_numbers: "#585b70".to_owned(),
                status_bar: StatusBarTheme {
                    background: "#181825".to_owned(),
                    foreground: "#cdd6f4".to_owned(),
                    mode_normal: "#89b4fa".to_owned(),
                    mode_insert: "#a6e3a1".to_owned(),
                    mode_visual: "#f38ba8".to_owned(),
                },
                sidebar: SidebarTheme {
                    background: "#11111b".to_owned(),
                    foreground: "#bac2de".to_owned(),
                    selected: "#45475a".to_owned(),
                    git_modified: "#f9e2af".to_owned(),
                    git_added: "#a6e3a1".to_owned(),
                    git_deleted: "#f38ba8".to_owned(),
                    folder: "#89b4fa".to_owned(),
                    file: "#cdd6f4".to_owned(),
                },
                border: "#585b70".to_owned(),
            },
            syntax: SyntaxTheme {
                keyword: "#cba6f7".to_owned(),
                string: "#a6e3a1".to_owned(),
                comment: "#6c7086".to_owned(),
                function: "#89b4fa".to_owned(),
                variable: "#f5e0dc".to_owned(),
                number: "#fab387".to_owned(),
                operator: "#94e2d5".to_owned(),
                types: "#f9e2af".to_owned(),
            },
        }
    }

    pub fn default_light() -> (t: Theme)
        ensures
            t.name@ == "Light"@,
    {
        proof {
            reveal_strlit("Light");
        }
        Theme {
            name: "Light".to_owned(),
            ui: UiTheme {
                background: "#eff1f5".to_owned(),
                foreground: "#4c4f69".to_owned(),
                selection: "#acb0be".to_owned(),
                cursor: "#dc8a78".to_owned(),
                current_line: "#e6e9ef".to_owned(),
                line_numbers: "#9ca0b0".to_owned(),
                status_bar: StatusBarTheme {
                    background: "#dce0e8".to_owned(),
                    foreground: "#4c4f69".to_owned(),
                    mode_normal: "#1e66f5".to_owned(),
                    mode_insert: "#40a02b".to_owned(),
                    mode_visual: "#d20f39".to_owned(),
                },
                sidebar: SidebarTheme {
                    background: "#e6e9ef".to_owned(),
                    foreground: "#5c5f77".to_owned(),
                    selected: "#ccd0da".to_owned(),
                    git_modified: "#df8e1d".to_owned(),
                    git_added: "#40a02b".to_owned(),
                    git_deleted: "#d20f39".to_owned(),
                    folder: "#1e66f5".to_owned(),
                    file: "#4c4f69".to_owned(),
                },
                border: "#9ca0b0".to_owned(),
            },
            syntax: SyntaxTheme {
                keyword: "#8839ef".to_owned(),
                string: "#40a02b".to_owned(),
                comment: "#9ca0b0".to_owned(),
                function: "#1e66f5".to_owned(),
                variable: "#dc8a78".to_owned(),
                number: "#fe640b".to_owned(),
                operator: "#179299".to_owned(),
                types: "#df8e1d".to_owned(),
            },
        }
    }
}

/// Names of the themes in `themes`, in order.
pub open spec fn names(themes: Seq<Theme>) -> Seq<Seq<char>> {
    themes.map_values(|t: Theme| t.name@)
}

/// The themes known by name, and the current one.
pub struct ThemeManager {
    themes: Vec<Theme>,
    current_theme: String,
}

impl ThemeManager {
    /// The themes, in the order they were added.
    pub closed spec fn themes(&self) -> Seq<Theme> {
        self.themes@
    }

    /// Name of the current theme.
    pub closed spec fn current_name(&self) -> Seq<char> {
        self.current_theme@
    }

    /// Names are unique and the current one names a theme.
    pub open spec fn wf(&self) -> bool {
        &&& forall|i: int, j: int|
            0 <= i < j < self.themes().len() ==> (#[trigger] self.themes()[i]).name@ != (#[trigger] self.themes()[j]).name@
        &&& names(self.themes()).contains(self.current_name())
    }

    /// The dark and light themes, the dark one current.
    pub fn new() -> (m: ThemeManager)
        ensures
            names(m.themes()) == seq!["Dark"@, "Light"@],
            m.current_name() == "Dark"@,
            m.wf(),
    {
        proof {
            reveal_strlit("Dark");
            reveal_strlit("Light");
        }
        let mut themes = Vec::new();
        themes.push(Theme::default_dark());
        themes.push(Theme::default_light());
        let m = ThemeManager { themes, current_theme: "Dark".to_owned() };
        proof {
            assert(names(m.themes()) =~= seq!["Dark"@, "Light"@]);
            assert(names(m.themes())[0] == "Dark"@);
        }
        m
    }

    /// The current theme.
    pub fn get_current_theme(&self) -> (t: &Theme)
        requires
            self.wf(),
        ensures
            t.name@ == self.current_name(),
            self.themes().contains(*t),
    {
        let mut i: usize = 0;
        while i < self.themes.len()
            invariant
                i <= self.themes@.len(),
                self.wf(),
                forall|k: int| 0 <= k < i ==> (#[trigger] self.themes@[k]).name@ != self.current_theme@,
            decreases self.themes@.len() - i,
        {
            if self.themes[i].name == self.current_theme {
                return &self.themes[i];
            }
            i = i + 1;
        }
        proof {
            let k = choose|k: int| 0 <= k < names(self.themes()).len() && names(self.themes())[k] == self.current_name();
            assert(self.themes@[k].name@ == self.current_theme@);
        }
        &self.themes[0]
    }

    /// Makes the theme called `name` current; false when there is none.
    pub fn set_theme(&mut self, name: &str) -> (r: bool)
        requires
            old(self).wf(),
        ensures
            r == names(old(self).themes()).contains(name@),
            final(self).current_name() == if r { name@ } else { old(self).current_name() },
            final(self).themes() == old(self).themes(),
            final(self).wf(),
    {
        let n = name.to_owned();
        let mut i: usize = 0;
        while i < self.themes.len()
            invariant
                i <= self.themes@.len(),
                n@ == name@,
                old(self).wf(),
                *self == *old(self),
                forall|k: int| 0 <= k < i ==> (#[trigger] self.themes@[k]).name@ != name@,
            decreases self.themes@.len() - i,
        {
            if self.themes[i].name == n {
                proof {
                    assert(names(self.themes())[i as int] == name@);
                    assert(names(self.themes()).contains(name@));
                }
                self.current_theme = n;
                proof {
                    assert(self.themes@ == old(self).themes@);
                    assert(names(self.themes())[i as int] == self.current_name());
                }
                return true;
            }
            i = i + 1;
        }
        proof {
            if names(self.themes()).contains(name@) {
                let k = choose|k: int| 0 <= k < names(self.themes()).len() && names(self.themes())[k] == name@;
                assert(self.themes@[k].name@ == name@);
            }
        }
        false
    }

    /// The names of the themes.
    pub fn get_available_themes(&self) -> (v: Vec<String>)
        ensures
            v@.map_values(|s: String| s@) == names(self.themes()),
    {
        let mut v: Vec<String> = Vec::new();
        let mut i: usize = 0;
        while i < self.themes.len()
            invariant
                i <= self.themes@.len(),
                v@.len() == i,
                forall|k: int| 0 <= k < i ==> (#[trigger] v@[k])@ == self.themes@[k].name@,
            decreases self.themes@.len() - i,
        {
            v.push(self.themes[i].name.clone());
            i = i + 1;
        }
        proof {
            assert(v@.map_values(|s: String| s@) =~= names(self.themes()));
        }
        v
    }

    /// Adds `theme`, replacing the one of the same name.
    pub fn add_theme(&mut self, theme: Theme)
        requires
            old(self).wf(),
        ensures
            names(old(self).themes()).contains(theme.name@) ==> names(final(self).themes()) == names(old(self).themes()),
            !names(old(self).themes()).contains(theme.name@) ==> names(final(self).themes()) == names(old(self).themes()).push(theme.name@),
            final(self).themes().contains(theme),
            final(self).current_name() == old(self).current_name(),
            final(self).wf(),
    {
        let mut i: usize = 0;
        while i < self.themes.len()
            invariant
                i <= self.themes@.len(),
                old(self).wf(),
                *self == *old(self),
                forall|k: int| 0 <= k < i ==> (#[trigger] self.themes@[k]).name@ != theme.name@,
            decreases self.themes@.len() - i,
        {
            if self.themes[i].name == theme.name {
                let ghost before = self.themes@;
                self.themes.set(i, theme);
                proof {
                    assert(names(self.themes()) =~= names(old(self).themes()));
                    assert(self.themes@[i as int] == theme);
                    assert(names(old(self).themes())[i as int] == theme.name@);
                    assert forall|a: int, b: int| 0 <= a < b < self.themes().len() implies (#[trigger] self.themes()[a]).name@ != (#[trigger] self.themes()[b]).name@ by {
                        assert(self.themes()[a].name@ == names(self.themes())[a]);
                        assert(self.themes()[b].name@ == names(self.themes())[b]);
                        assert(names(before)[a] == before[a].name@);
                        assert(names(before)[b] == before[b].name@);
                    }
                    let c = choose|k: int| 0 <= k < names(before).len() && names(before)[k] == old(self).current_theme@;
                    assert(names(self.themes())[c] == old(self).current_theme@);
                }
                return;
            }
            i = i + 1;
        }
        proof {
            if names(self.themes()).contains(theme.name@) {
                let k = choose|k: int| 0 <= k < names(self.themes()).len() && names(self.themes())[k] == theme.name@;
                assert(self.themes@[k].name@ == theme.name@);
            }
        }
        let ghost before = self.themes@;
        self.themes.push(theme);
        proof {
            assert(names(self.themes()) =~= names(before).push(theme.name@));
            assert(self.themes@[before.len() as int] == theme);
            let c = choose|k: int| 0 <= k < names(before).len() && names(before)[k] == old(self).current_theme@;
            assert(names(self.themes())[c] == old(self).current_theme@);
        }
    }
}

/// Value of a hexadecimal digit.
pub open spec fn hex_digit(c: char) -> Option<nat> {
    if '0' <= c <= '9' {
        Some((c as nat - '0' as nat) as nat)
    } else if 'a' <= c <= 'f' {
        Some((c as nat - 'a' as nat + 10) as nat)
    } else if 'A' <= c <= 'F' {
        Some((c as nat - 'A' as nat + 10) as nat)
    } else {
        None
    }
}

/// Value of the hexadecimal digits `d`, if all are digits.
pub open spec fn hex_value(d: Seq<char>) -> Option<nat>
    decreases d.len(),
{
    if d.len() == 0 {
        Some(0)
    } else {
        match (hex_value(d.drop_last()), hex_digit(d.last())) {
            (Some(v), Some(x)) => Some(v * 16 + x),
            _ => None,
        }
    }
}

/// `s` without its leading `#` characters.
pub open spec fn strip_hashes(s: Seq<char>) -> Seq<char>
    decreases s.len(),
{
    if s.len() > 0 && s[0] == '#' {
        strip_hashes(s.drop_first())
    } else {
        s
    }
}

/// The colour `#rrggbb` names: six characters after the leading `#`s,
/// read as a hexadecimal number (which may carry a `+` sign).
pub open spec fn hex_rgb(s: Seq<char>) -> Option<(u8, u8, u8)> {
    let h = strip_hashes(s);
    if h.len() != 6 {
        None
    } else {
        let digits = if h[0] == '+' { h.drop_first() } else { h };
        match hex_value(digits) {
            Some(v) => Some(((v / 65536 % 256) as u8, (v / 256 % 256) as u8, (v % 256) as u8)),
            None => None,
        }
    }
}

proof fn lemma_hex_value_bound(d: Seq<char>)
    ensures
        hex_value(d) matches Some(v) ==> v < pow16(d.len()),
    decreases d.len(),
{
    if d.len() > 0 {
        lemma_hex_value_bound(d.drop_last());
    }
}

pub open spec fn pow16(n: nat) -> nat
    decreases n,
{
    if n == 0 {
        1
    } else {
        16 * pow16((n - 1) as nat)
    }
}

/// The colour a theme's `#rrggbb` string names, as red, green and blue;
/// None when it is not one.
pub fn hex_to_color(hex: &str) -> (r: Option<(u8, u8, u8)>)
    ensures
        r == hex_rgb(hex@),
{
    let chars = crate::text::chars_of(hex);
    let n = chars.len();
    let mut i: usize = 0;
    proof {
        assert(chars@.skip(0) =~= chars@);
    }
    while i < n && chars[i] == '#'
        invariant
            i <= n,
            n == chars@.len(),
            strip_hashes(chars@.skip(i as int)) == strip_hashes(hex@),
            chars@ == hex@,
        decreases n - i,
    {
        proof {
            assert(chars@.skip(i as int).drop_first() =~= chars@.skip(i + 1));
        }
        i = i + 1;
    }
    proof {
        assert(strip_hashes(chars@.skip(i as int)) == chars@.skip(i as int));
    }
    if n - i != 6 {
        return None;
    }
    let start = if chars[i] == '+' { i + 1 } else { i };
    let ghost h = chars@.skip(i as int);
    let ghost digits = if h[0] == '+' { h.drop_first() } else { h };
    proof {
        assert(digits =~= chars@.subrange(start as int, n as int));
        assert(chars@.subrange(start as int, start as int) =~= Seq::<char>::empty());
    }
    let ghost full = chars@.subrange(start as int, n as int);
    let mut v: u32 = 0;
    let mut k: usize = start;
    while k < n
        invariant
            start <= k <= n,
            n - start <= 6,
            n == chars@.len(),
            full == chars@.subrange(start as int, n as int),
            hex_rgb(hex@) == match hex_value(full) {
                Some(w) => Some(((w / 65536 % 256) as u8, (w / 256 % 256) as u8, (w % 256) as u8)),
                None => None,
            },
            hex_value(chars@.subrange(start as int, k as int)) == Some(v as nat),
        decreases n - k,
    {
        proof {
            assert(chars@.subrange(start as int, k + 1).drop_last() =~= chars@.subrange(start as int, k as int));
            lemma_hex_value_bound(chars@.subrange(start as int, k as int));
            assert(pow16((k - start) as nat) <= pow16(5)) by {
                lemma_pow16_mono((k - start) as nat, 5);
            }
            assert(pow16(5) == 1048576) by {
                reveal_with_fuel(pow16, 6);
            }
        }
        let c = chars[k];
        let d: u32 = if '0' <= c && c <= '9' {
            (c as u32) - ('0' as u32)
        } else if 'a' <= c && c <= 'f' {
            (c as u32) - ('a' as u32) + 10
        } else if 'A' <= c && c <= 'F' {
            (c as u32) - ('A' as u32) + 10
        } else {
            proof {
                assert(hex_value(chars@.subrange(start as int, k + 1)) is None);
                assert(chars@.subrange(start as int, k + 1) =~= full.take(k + 1 - start));
                lemma_hex_value_none(chars@.subrange(start as int, k + 1), full);
            }
            return None;
        };
        v = v * 16 + d;
        k = k + 1;
    }
    proof {
        assert(chars@.subrange(start as int, k as int) =~= full);
    }
    Some(((v / 65536 % 256) as u8, (v / 256 % 256) as u8, (v % 256) as u8))
}

proof fn lemma_pow16_mono(a: nat, b: nat)
    requires
        a <= b,
    ensures
        pow16(a) <= pow16(b),
    decreases b,
{
    if a < b {
        lemma_pow16_mono(a, (b - 1) as nat);
    }
}

/// A prefix that is not all digits makes the whole not all digits.
proof fn lemma_hex_value_none(p: Seq<char>, d: Seq<char>)
    requires
        p.len() <= d.len(),
        p == d.take(p.len() as int),
        hex_value(p) is None,
    ensures
        hex_value(d) is None,
    decreases d.len(),
{
    if d.len() > p.len() {
        assert(d.drop_last().take(p.len() as int) =~= p);
        lemma_hex_value_none(p, d.drop_last());
    } else {
        assert(p =~= d);
    }
}

} // verus!
