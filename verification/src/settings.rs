//! Customization options.

use vstd::prelude::*;
use vstd::string::StringExecFns;

use crate::text::joined;

verus! {

/// Controls the allowed set of lujvo hyphens.
#[derive(PartialEq, Eq, Clone, Copy, Debug, Structural)]
pub enum HyphenSetting {
    /// *r* and *n* hyphens behave as in CLL.
    Standard,
    /// *y* hyphens are allowed in place of *r* and *n*.
    AllowY,
    /// *y* hyphens are required; using *r* or *n* hyphens creates a zi'evla.
    ForceY,
}

/// The settings!
#[derive(Clone, Copy, Debug)]
pub struct Settings {
    /// Whether the lujvo should end in a consonant. This only affects
    /// generating lujvo, and has no effect when decomposing them.
    pub generate_cmevla: bool,
    /// What hyphens to allow.
    pub hyphens: HyphenSetting,
    /// Whether any cmavo not containing *y* may be a rafsi. This requires
    /// adding a glottal stop after every cmavo ending in *y* rather than
    /// just *Cy* cmavo.
    pub arbitrary_cmavo_rafsi: bool,
    /// Whether *mz* is considered a valid consonant cluster.
    pub allow_mz: bool,
    /// Whether slinku'i are valid words. If `true` it considers e.g.
    /// *paslinku'i* to be a tosmabru.
    pub no_slinkuhi: bool,
}

/// The settings closest to the CLL.
pub open spec fn cll_settings() -> Settings {
    Settings {
        generate_cmevla: false,
        hyphens: HyphenSetting::Standard,
        arbitrary_cmavo_rafsi: false,
        allow_mz: false,
        no_slinkuhi: false,
    }
}

/// The characters that name a flag: *x c S A F r z n*.
pub open spec fn settings_char(c: char) -> bool {
    c == 'x' || c == 'c' || c == 'S' || c == 'A' || c == 'F' || c == 'r' || c == 'z' || c == 'n'
}

/// `h` toggled against `on`: `on` unless it already is `on`, in which case
/// the CLL value.
pub open spec fn toggled(h: HyphenSetting, on: HyphenSetting) -> HyphenSetting {
    if h == on {
        HyphenSetting::Standard
    } else {
        on
    }
}

/// The effect of one flag character.
pub open spec fn apply_flag(s: Settings, f: char) -> Settings {
    if f == 'x' {
        cll_settings()
    } else if f == 'c' {
        Settings { generate_cmevla: !s.generate_cmevla, ..s }
    } else if f == 'r' {
        Settings { arbitrary_cmavo_rafsi: !s.arbitrary_cmavo_rafsi, ..s }
    } else if f == 'z' {
        Settings { allow_mz: !s.allow_mz, ..s }
    } else if f == 'n' {
        Settings { no_slinkuhi: !s.no_slinkuhi, ..s }
    } else if f == 'A' {
        Settings { hyphens: toggled(s.hyphens, HyphenSetting::AllowY), ..s }
    } else if f == 'F' {
        Settings { hyphens: toggled(s.hyphens, HyphenSetting::ForceY), ..s }
    } else if f == 'S' {
        Settings { hyphens: HyphenSetting::Standard, ..s }
    } else {
        s
    }
}

/// The flags applied from left to right.
pub open spec fn applied_flags(s: Settings, flags: Seq<char>) -> Settings
    decreases flags.len(),
{
    if flags.len() == 0 {
        s
    } else {
        apply_flag(applied_flags(s, flags.drop_last()), flags.last())
    }
}

/// Every character of `flags` names a flag.
pub open spec fn all_settings_chars(flags: Seq<char>) -> bool {
    forall|i: int| 0 <= i < flags.len() ==> settings_char(#[trigger] flags[i])
}

impl Settings {
    /// Settings that are as close as possible to the CLL. Putting zi'evla in
    /// lujvo at all is still allowed.
    pub fn cll() -> (s: Settings)
        ensures
            s == cll_settings(),
    {
        Settings {
            generate_cmevla: false,
            hyphens: HyphenSetting::Standard,
            arbitrary_cmavo_rafsi: false,
            allow_mz: false,
            no_slinkuhi: false,
        }
    }

    /// Settings that permit as many lujvo as possible (`Arz`): the CLL
    /// settings with *y* hyphens allowed, arbitrary cmavo rafsi and *mz*.
    pub fn permissive() -> (s: Settings)
        ensures
            s == applied_flags(cll_settings(), seq!['A', 'r', 'z']),
    {
        let s = Settings {
            generate_cmevla: false,
            hyphens: HyphenSetting::AllowY,
            arbitrary_cmavo_rafsi: true,
            allow_mz: true,
            no_slinkuhi: false,
        };
        assert(seq!['A', 'r', 'z'].drop_last() =~= seq!['A', 'r']);
        assert(seq!['A', 'r'].drop_last() =~= seq!['A']);
        assert(seq!['A'].drop_last() =~= Seq::<char>::empty());
        proof {
            reveal_with_fuel(applied_flags, 4);
        }
        s
    }

    fn is_settings_char(c: char) -> (b: bool)
        ensures
            b == settings_char(c),
    {
        matches!(c, 'x' | 'c' | 'S' | 'A' | 'F' | 'r' | 'z' | 'n')
    }

    fn toggle_hyphens(h: HyphenSetting, on: HyphenSetting) -> (r: HyphenSetting)
        ensures
            r == toggled(h, on),
    {
        if h == on {
            HyphenSetting::Standard
        } else {
            on
        }
    }

    fn apply_one(&mut self, f: char)
        ensures
            *final(self) == apply_flag(*old(self), f),
    {
        match f {
            'x' => {
                *self = Settings::cll();
            },
            'c' => self.generate_cmevla = !self.generate_cmevla,
            'r' => self.arbitrary_cmavo_rafsi = !self.arbitrary_cmavo_rafsi,
            'z' => self.allow_mz = !self.allow_mz,
            'n' => self.no_slinkuhi = !self.no_slinkuhi,
            'A' => self.hyphens = Self::toggle_hyphens(self.hyphens, HyphenSetting::AllowY),
            'F' => self.hyphens = Self::toggle_hyphens(self.hyphens, HyphenSetting::ForceY),
            'S' => self.hyphens = HyphenSetting::Standard,
            _ => {},
        }
    }

    /// Modifies `self` by toggling each character in `flags`. Returns `None`,
    /// leaving `self` unchanged, if some character of `flags` names no flag.
    pub fn apply_flags(&mut self, flags: &str) -> (r: Option<()>)
        ensures
            r is Some <==> all_settings_chars(flags@),
            r is Some ==> *final(self) == applied_flags(*old(self), flags@),
            r is None ==> *final(self) == *old(self),
    {
        let chars = crate::text::collect_chars(flags);
        let mut i: usize = 0;
        while i < chars.len()
            invariant
                i <= chars.len(),
                chars@ == flags@,
                all_settings_chars(chars@.take(i as int)),
            decreases chars.len() - i,
        {
            if !Self::is_settings_char(chars[i]) {
                return None;
            }
            i += 1;
            assert forall|j: int| 0 <= j < i implies settings_char(
                #[trigger] chars@.take(i as int)[j],
            ) by {
                if j < i - 1 {
                    assert(chars@.take(i as int)[j] == chars@.take(i - 1)[j]);
                }
            }
        }
        assert(chars@.take(chars.len() as int) == chars@);
        let ghost start = *self;
        let mut k: usize = 0;
        while k < chars.len()
            invariant
                k <= chars.len(),
                chars@ == flags@,
                *self == applied_flags(start, chars@.take(k as int)),
            decreases chars.len() - k,
        {
            self.apply_one(chars[k]);
            k += 1;
            assert(chars@.take(k as int).drop_last() == chars@.take(k - 1));
        }
        Some(())
    }

    /// The settings that `flags` makes of [`Settings::cll`], if every
    /// character of it names a flag.
    pub fn from_flags(flags: &str) -> (r: Option<Settings>)
        ensures
            r is Some <==> all_settings_chars(flags@),
            r matches Some(s) ==> s == applied_flags(cll_settings(), flags@),
    {
        let mut s = Settings::cll();
        match s.apply_flags(flags) {
            Some(()) => Some(s),
            None => None,
        }
    }
}

impl core::str::FromStr for Settings {
    type Err = ();

    fn from_str(s: &str) -> (r: Result<Settings, ()>)
        ensures
            r is Ok <==> all_settings_chars(s@),
            r matches Ok(t) ==> t == applied_flags(cll_settings(), s@),
    {
        match Settings::from_flags(s) {
            Some(settings) => Ok(settings),
            None => Err(()),
        }
    }
}


/// The names of the settings that differ from the CLL ones, in order:
/// the hyphens, then cmevla generation, arbitrary cmavo rafsi, *mz* and
/// slinku'i.
pub open spec fn label_parts(s: Settings) -> Seq<Seq<char>> {
    (match s.hyphens {
        HyphenSetting::Standard => seq![],
        HyphenSetting::AllowY => seq!["allow-y"@],
        HyphenSetting::ForceY => seq!["force-y"@],
    }) + (if s.generate_cmevla {
        seq!["generate-cmevla"@]
    } else {
        seq![]
    }) + (if s.arbitrary_cmavo_rafsi {
        seq!["arbitrary-cmavo-rafsi"@]
    } else {
        seq![]
    }) + (if s.allow_mz {
        seq!["allow-mz"@]
    } else {
        seq![]
    }) + (if s.no_slinkuhi {
        seq!["no-slinku'i"@]
    } else {
        seq![]
    })
}

/// Describes `settings` by the names of the settings that differ from the
/// CLL ones, separated by spaces (empty for the CLL settings).
pub fn settings_label(settings: Settings) -> (label: String)
    ensures
        label@ == joined(label_parts(settings), " "@),
{
    let mut parts: Vec<&str> = Vec::new();
    match settings.hyphens {
        HyphenSetting::Standard => {},
        HyphenSetting::AllowY => parts.push("allow-y"),
        HyphenSetting::ForceY => parts.push("force-y"),
    }
    if settings.generate_cmevla {
        parts.push("generate-cmevla");
    }
    if settings.arbitrary_cmavo_rafsi {
        parts.push("arbitrary-cmavo-rafsi");
    }
    if settings.allow_mz {
        parts.push("allow-mz");
    }
    if settings.no_slinkuhi {
        parts.push("no-slinku'i");
    }
    let ghost views = parts@.map_values(|p: &str| p@);
    assert(views =~= label_parts(settings));
    let mut label = String::new();
    let mut k: usize = 0;
    while k < parts.len()
        invariant
            k <= parts.len(),
            views == parts@.map_values(|p: &str| p@),
            label@ == joined(views.take(k as int), " "@),
        decreases parts.len() - k,
    {
        if k > 0 {
            label.append(" ");
        }
        label.append(parts[k]);
        k += 1;
        assert(views.take(k as int).drop_last() =~= views.take(k - 1));
        if k == 1 {
            assert(views.take(1) =~= seq![views[0]]);
        }
    }
    assert(views.take(parts.len() as int) =~= views);
    label
}


/// Each flag that toggles a setting (*c r z n*) undoes itself when given
/// twice.
pub proof fn lemma_toggle_twice(s: Settings, f: char)
    requires
        f == 'c' || f == 'r' || f == 'z' || f == 'n',
    ensures
        applied_flags(s, seq![f, f]) == s,
{
    assert(seq![f, f].drop_last() =~= seq![f]);
    assert(seq![f].drop_last() =~= Seq::<char>::empty());
    reveal_with_fuel(applied_flags, 3);
}

/// The hyphen flags *A* and *F* toggle between their setting and the CLL
/// one: given twice, they undo themselves from either of the two.
pub proof fn lemma_hyphen_toggle_twice(s: Settings, f: char)
    requires
        (f == 'A' && (s.hyphens == HyphenSetting::Standard || s.hyphens == HyphenSetting::AllowY))
            || (f == 'F' && (s.hyphens == HyphenSetting::Standard || s.hyphens
            == HyphenSetting::ForceY)),
    ensures
        applied_flags(s, seq![f, f]) == s,
{
    assert(seq![f, f].drop_last() =~= seq![f]);
    assert(seq![f].drop_last() =~= Seq::<char>::empty());
    reveal_with_fuel(applied_flags, 3);
}

/// *x* resets everything to the CLL settings, whatever came before.
pub proof fn lemma_reset(s: Settings, flags: Seq<char>)
    ensures
        applied_flags(s, flags.push('x')) == cll_settings(),
{
    assert(flags.push('x').drop_last() =~= flags);
}

/// *S* sets the hyphens to the CLL ones whatever they were before, and
/// leaves every other setting as it was.
pub proof fn lemma_standard_hyphens(s: Settings, flags: Seq<char>)
    ensures
        applied_flags(s, flags.push('S')).hyphens == HyphenSetting::Standard,
        applied_flags(s, flags.push('S')).generate_cmevla == applied_flags(s, flags).generate_cmevla,
        applied_flags(s, flags.push('S')).arbitrary_cmavo_rafsi == applied_flags(
            s,
            flags,
        ).arbitrary_cmavo_rafsi,
        applied_flags(s, flags.push('S')).allow_mz == applied_flags(s, flags).allow_mz,
        applied_flags(s, flags.push('S')).no_slinkuhi == applied_flags(s, flags).no_slinkuhi,
{
    assert(flags.push('S').drop_last() =~= flags);
}

} // verus!
