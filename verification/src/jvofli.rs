//! Error types.

use vstd::prelude::*;

verus! {

/// Answers questions of the form "invalid what?".
#[derive(Debug, Clone, Copy, PartialEq, Eq, Structural)]
#[non_exhaustive]
pub enum What {
    Cluster,
    ConsonantRun,
    ConsonantalSyllable,
    Diphthong,
    Nucleus,
    Onset,
    Syllable,
}

/// An error produced while splitting text into syllables and units.
#[derive(Debug, PartialEq, Eq, Clone)]
#[non_exhaustive]
pub enum Jvofli {
    /// `value` is not a valid `what`.
    Invalid { what: What, value: String },
    /// No unit split makes the stress in the given syllable valid.
    InvalidStressPosition(String),
    /// The same letter stands for a glide twice in a row.
    LongGlide(char),
    /// An apostrophe that does not stand between two vowels.
    MisplacedApostrophe { before: Option<char>, after: Option<char> },
    /// A character that is not a Lojban letter.
    NonLojbanCharacter(char),
    /// A pre-brivla of only one syllable.
    NotEnoughSyllables(String),
    /// An onglide next to a consonant.
    OnglideInCluster(char),
    /// A slinku'i.
    Slinkuhi(String),
    /// A letter that cannot carry stress, given in its plain form.
    Unstressable(String),
    /// Explicit stress on a letter that cannot carry it.
    StressOnUnstressable(String),
    /// An unstressable syllable at the start of a pre-brivla.
    UnstressablePreBrivlaStart(String),
    /// An unstressable syllable at the end of a pre-brivla.
    UnstressablePreBrivlaEnd(String),
}

/// An error as specifications see it: its kind and what it holds, with
/// text as sequences of characters.
pub ghost enum Fault {
    Invalid(What, Seq<char>),
    InvalidStressPosition(Seq<char>),
    LongGlide(char),
    MisplacedApostrophe(Option<char>, Option<char>),
    NonLojbanCharacter(char),
    NotEnoughSyllables(Seq<char>),
    OnglideInCluster(char),
    Slinkuhi(Seq<char>),
    Unstressable(Seq<char>),
    StressOnUnstressable(Seq<char>),
    UnstressablePreBrivlaStart(Seq<char>),
    UnstressablePreBrivlaEnd(Seq<char>),
}

impl View for Jvofli {
    type V = Fault;

    open spec fn view(&self) -> Fault {
        match self {
            Jvofli::Invalid { what, value } => Fault::Invalid(*what, value@),
            Jvofli::InvalidStressPosition(t) => Fault::InvalidStressPosition(t@),
            Jvofli::LongGlide(c) => Fault::LongGlide(*c),
            Jvofli::MisplacedApostrophe { before, after } => Fault::MisplacedApostrophe(
                *before,
                *after,
            ),
            Jvofli::NonLojbanCharacter(c) => Fault::NonLojbanCharacter(*c),
            Jvofli::NotEnoughSyllables(t) => Fault::NotEnoughSyllables(t@),
            Jvofli::OnglideInCluster(c) => Fault::OnglideInCluster(*c),
            Jvofli::Slinkuhi(t) => Fault::Slinkuhi(t@),
            Jvofli::Unstressable(t) => Fault::Unstressable(t@),
            Jvofli::StressOnUnstressable(t) => Fault::StressOnUnstressable(t@),
            Jvofli::UnstressablePreBrivlaStart(t) => Fault::UnstressablePreBrivlaStart(t@),
            Jvofli::UnstressablePreBrivlaEnd(t) => Fault::UnstressablePreBrivlaEnd(t@),
        }
    }
}

/// The name of `w`, as an error message uses it.
pub open spec fn what_name(w: What) -> Seq<char> {
    match w {
        What::Cluster => "cluster"@,
        What::ConsonantRun => "consonant run"@,
        What::ConsonantalSyllable => "consonantal syllable"@,
        What::Diphthong => "diphthong"@,
        What::Nucleus => "nucleus"@,
        What::Onset => "onset"@,
        What::Syllable => "syllable"@,
    }
}

impl What {
    /// The name of this kind of thing, as an error message uses it.
    pub fn to_text(&self) -> (s: String)
        ensures
            s@ == what_name(*self),
    {
        let name: &str = match self {
            What::Cluster => "cluster",
            What::ConsonantRun => "consonant run",
            What::ConsonantalSyllable => "consonantal syllable",
            What::Diphthong => "diphthong",
            What::Nucleus => "nucleus",
            What::Onset => "onset",
            What::Syllable => "syllable",
        };
        name.to_owned()
    }
}

/// `Invalid { what, value }` where `value` spells the two letters `x y`.
pub open spec fn invalid_pair_spec(e: Jvofli, w: What, x: char, y: char) -> bool {
    e matches Jvofli::Invalid { what, value } && what == w && value@ == seq![x, y]
}

/// The error for an invalid two-letter sequence.
pub(crate) fn invalid_from_pair(w: What, x: char, y: char) -> (e: Jvofli)
    ensures
        invalid_pair_spec(e, w, x, y),
{
    let mut value = String::new();
    crate::text::push_char(&mut value, x);
    crate::text::push_char(&mut value, y);
    assert(value@ =~= seq![x, y]);
    Jvofli::Invalid { what: w, value }
}

/// The error for an invalid three-letter cluster.
pub(crate) fn invalid_cluster_from_triple(x: char, y: char, z: char) -> (e: Jvofli)
    ensures
        e matches Jvofli::Invalid { what, value } && what == What::Cluster && value@ == seq![
            x,
            y,
            z,
        ],
{
    let mut value = String::new();
    crate::text::push_char(&mut value, x);
    crate::text::push_char(&mut value, y);
    crate::text::push_char(&mut value, z);
    assert(value@ =~= seq![x, y, z]);
    Jvofli::Invalid { what: What::Cluster, value }
}

} // verus!
