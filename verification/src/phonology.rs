//! Letter classes, consonant clusters and stress marks.

use bimap::BiHashMap;
use vstd::prelude::*;

use crate::settings::Settings;
use crate::text::collect_chars;

verus! {

// - vowels -

/// *a e i o u*, plain or with a stress mark.
pub open spec fn stressable_vowel(c: char) -> bool {
    c == 'a' || c == 'e' || c == 'i' || c == 'o' || c == 'u' || c == 'á' || c == 'é' || c == 'í'
        || c == 'ó' || c == 'ú'
}

/// Returns whether `c` is a stressable vowel (including when actually
/// stressed): *a e i o u*.
#[verifier::when_used_as_spec(stressable_vowel)]
pub fn is_stressable_vowel(c: char) -> (b: bool)
    ensures
        b == stressable_vowel(c),
{
    matches!(c, 'a' | 'e' | 'i' | 'o' | 'u' | 'á' | 'é' | 'í' | 'ó' | 'ú')
}

/// A vowel, *y* included, with or without a stress mark.
pub open spec fn vowel(c: char) -> bool {
    stressable_vowel(c) || c == 'y' || c == 'ý'
}

/// Returns whether `c` is a vowel, i.e. including *y*, optionally with a stress
/// mark (even for *y*, to produce better error messages).
#[verifier::when_used_as_spec(vowel)]
pub fn is_vowel(c: char) -> (b: bool)
    ensures
        b == vowel(c),
{
    is_stressable_vowel(c) || c == 'y' || c == 'ý'
}

/// The falling diphthongs *ai au ei oi*; the first letter may carry stress.
pub open spec fn diphthong_chars(x: char, y: char) -> bool {
    ((x == 'a' || x == 'á' || x == 'e' || x == 'é' || x == 'o' || x == 'ó') && y == 'i') || ((x
        == 'a' || x == 'á') && y == 'u')
}

/// Returns whether `x` and `y` form a diphthong: *ai au ei oi*.
#[verifier::when_used_as_spec(diphthong_chars)]
pub fn is_diphthong_chars(x: char, y: char) -> (b: bool)
    ensures
        b == diphthong_chars(x, y),
{
    ((x == 'a' || x == 'á' || x == 'e' || x == 'é' || x == 'o' || x == 'ó') && y == 'i') || ((x
        == 'a' || x == 'á') && y == 'u')
}

/// The annotated onglides *q w*.
pub open spec fn annotated_onglide(c: char) -> bool {
    c == 'q' || c == 'w'
}

#[verifier::when_used_as_spec(annotated_onglide)]
pub(crate) fn is_annotated_onglide(c: char) -> (b: bool)
    ensures
        b == annotated_onglide(c),
{
    c == 'q' || c == 'w'
}

/// The annotated offglides *ĭ ŭ*.
pub open spec fn annotated_offglide(c: char) -> bool {
    c == 'ĭ' || c == 'ŭ'
}

#[verifier::when_used_as_spec(annotated_offglide)]
pub(crate) fn is_annotated_offglide(c: char) -> (b: bool)
    ensures
        b == annotated_offglide(c),
{
    c == 'ĭ' || c == 'ŭ'
}

/// *i* or *u*.
pub open spec fn glide_letter(c: char) -> bool {
    c == 'i' || c == 'u'
}

/// Returns whether `c` is *i* or *u*.
#[verifier::when_used_as_spec(glide_letter)]
pub fn could_be_glide(c: char) -> (b: bool)
    ensures
        b == glide_letter(c),
{
    c == 'i' || c == 'u'
}

/// The plain vowel that an annotated glide stands for.
pub open spec fn plain_glide(c: char) -> char {
    if c == 'q' || c == 'ĭ' {
        'i'
    } else if c == 'w' || c == 'ŭ' {
        'u'
    } else {
        c
    }
}

/// Normalizes an annotated glide character back to the plain vowel it
/// represents (*q*/*ĭ* → *i*, *w*/*ŭ* → *u*).
#[verifier::when_used_as_spec(plain_glide)]
pub fn deannotate_glide(c: char) -> (d: char)
    ensures
        d == plain_glide(c),
{
    match c {
        'q' | 'ĭ' => 'i',
        'w' | 'ŭ' => 'u',
        _ => c,
    }
}

// - stress marks -

/// The stressed vowels, each paired with its plain form.
pub open spec fn stress_pairs() -> Set<(char, char)> {
    set![('á', 'a'), ('é', 'e'), ('í', 'i'), ('ó', 'o'), ('ú', 'u'), ('ý', 'y')]
}

/// A vowel without its stress mark, and whether it had one.
pub open spec fn stripped(c: char) -> (char, bool) {
    if c == 'á' {
        ('a', true)
    } else if c == 'é' {
        ('e', true)
    } else if c == 'í' {
        ('i', true)
    } else if c == 'ó' {
        ('o', true)
    } else if c == 'ú' {
        ('u', true)
    } else if c == 'ý' {
        ('y', true)
    } else {
        (c, false)
    }
}

/// The stressed form of a plain vowel, if it has one.
pub open spec fn accented(c: char) -> Option<char> {
    if c == 'a' {
        Some('á')
    } else if c == 'e' {
        Some('é')
    } else if c == 'i' {
        Some('í')
    } else if c == 'o' {
        Some('ó')
    } else if c == 'u' {
        Some('ú')
    } else if c == 'y' {
        Some('ý')
    } else {
        None
    }
}

/// Adding a stress mark and stripping it again gives the plain vowel back,
/// and the other way round: the stressed and plain vowels pair one to one.
pub proof fn lemma_stress_roundtrip(c: char)
    ensures
        accented(c) matches Some(a) ==> stripped(a) == (c, true),
        stripped(c).1 ==> accented(stripped(c).0) == Some(c),
        !stripped(c).1 ==> stripped(c).0 == c,
{
}

/// The bimap type `bimap::BiHashMap`; what one holds is known only through
/// `char_bimap_pairs`.
#[verifier::external_type_specification]
#[verifier::external_body]
#[verifier::reject_recursive_types(L)]
#[verifier::reject_recursive_types(R)]
#[verifier::reject_recursive_types(LS)]
#[verifier::reject_recursive_types(RS)]
pub struct ExBiHashMap<L, R, LS, RS>(BiHashMap<L, R, LS, RS>);

/// The left-right pairs that a bimap of characters holds.
pub uninterp spec fn char_bimap_pairs(m: BiHashMap<char, char>) -> Set<(char, char)>;

/// `BiHashMap::new`: a bimap that holds no pair.
#[verifier::external_body]
fn char_bimap_new() -> (m: BiHashMap<char, char>)
    ensures
        char_bimap_pairs(m) == Set::<(char, char)>::empty(),
{
    BiHashMap::new()
}

/// `BiHashMap::insert`: removes every pair whose left value is `left` or
/// whose right value is `right`, then adds the pair `(left, right)`. The
/// returned record of what was overwritten is dropped.
#[verifier::external_body]
fn char_bimap_insert(m: &mut BiHashMap<char, char>, left: char, right: char)
    ensures
        char_bimap_pairs(*final(m)) == char_bimap_pairs(*old(m)).filter(
            |p: (char, char)| p.0 != left && p.1 != right,
        ).insert((left, right)),
{
    m.insert(left, right);
}

/// `BiHashMap::get_by_left`: the right value paired with `left`, if any.
#[verifier::external_body]
fn char_bimap_get_by_left(m: &BiHashMap<char, char>, left: char) -> (r: Option<char>)
    ensures
        match r {
            Some(right) => char_bimap_pairs(*m).contains((left, right)),
            None => forall|right: char| !char_bimap_pairs(*m).contains((left, right)),
        },
{
    m.get_by_left(&left).copied()
}

/// `BiHashMap::get_by_right`: the left value paired with `right`, if any.
#[verifier::external_body]
fn char_bimap_get_by_right(m: &BiHashMap<char, char>, right: char) -> (l: Option<char>)
    ensures
        match l {
            Some(left) => char_bimap_pairs(*m).contains((left, right)),
            None => forall|left: char| !char_bimap_pairs(*m).contains((left, right)),
        },
{
    m.get_by_right(&right).copied()
}

/// Inserting a pair neither of whose values occurs in `s` only adds it.
proof fn lemma_fresh_insert(s: Set<(char, char)>, l: char, r: char)
    requires
        forall|p: (char, char)| s.contains(p) ==> p.0 != l && p.1 != r,
    ensures
        s.filter(|p: (char, char)| p.0 != l && p.1 != r).insert((l, r)) == s.insert((l, r)),
{
    assert(s.filter(|p: (char, char)| p.0 != l && p.1 != r) =~= s);
}

/// The bimap between stressed vowels (left) and plain vowels (right).
fn stress_table() -> (m: BiHashMap<char, char>)
    ensures
        char_bimap_pairs(m) == stress_pairs(),
{
    let mut m = char_bimap_new();
    let ghost s0 = char_bimap_pairs(m);
    proof {
        lemma_fresh_insert(s0, 'á', 'a');
    }
    char_bimap_insert(&mut m, 'á', 'a');
    let ghost s1 = char_bimap_pairs(m);
    proof {
        lemma_fresh_insert(s1, 'é', 'e');
    }
    char_bimap_insert(&mut m, 'é', 'e');
    let ghost s2 = char_bimap_pairs(m);
    proof {
        lemma_fresh_insert(s2, 'í', 'i');
    }
    char_bimap_insert(&mut m, 'í', 'i');
    let ghost s3 = char_bimap_pairs(m);
    proof {
        lemma_fresh_insert(s3, 'ó', 'o');
    }
    char_bimap_insert(&mut m, 'ó', 'o');
    let ghost s4 = char_bimap_pairs(m);
    proof {
        lemma_fresh_insert(s4, 'ú', 'u');
    }
    char_bimap_insert(&mut m, 'ú', 'u');
    let ghost s5 = char_bimap_pairs(m);
    proof {
        lemma_fresh_insert(s5, 'ý', 'y');
    }
    char_bimap_insert(&mut m, 'ý', 'y');
    assert(char_bimap_pairs(m) =~= stress_pairs());
    m
}

/// Removes the stress from a vowel, returning the plain vowel and whether it
/// was stressed.
pub fn strip_stress_accent(c: char) -> (r: (char, bool))
    ensures
        r == stripped(c),
{
    let table = stress_table();
    match char_bimap_get_by_left(&table, c) {
        Some(plain) => (plain, true),
        None => {
            assert(!stress_pairs().contains((c, stripped(c).0)));
            (c, false)
        },
    }
}

/// Adds explicit stress to a vowel.
pub fn add_stress_accent(c: char) -> (r: Option<char>)
    ensures
        r == accented(c),
{
    let table = stress_table();
    match char_bimap_get_by_right(&table, c) {
        Some(stressed) => Some(stressed),
        None => {
            assert(accented(c) is Some ==> stress_pairs().contains((accented(c)->0, c)));
            None
        },
    }
}

// - consonants -

/// The voiced obstruents *b d g j v z*.
pub open spec fn voiced(c: char) -> bool {
    c == 'b' || c == 'd' || c == 'g' || c == 'j' || c == 'v' || c == 'z'
}

/// The voiceless obstruents *c f k p s t x*.
pub open spec fn voiceless(c: char) -> bool {
    c == 'c' || c == 'f' || c == 'k' || c == 'p' || c == 's' || c == 't' || c == 'x'
}

/// The sonorants *l m n r*.
pub open spec fn sonorant(c: char) -> bool {
    c == 'l' || c == 'm' || c == 'n' || c == 'r'
}

/// The sibilants *c j s z*.
pub open spec fn sibilant(c: char) -> bool {
    c == 'c' || c == 'j' || c == 's' || c == 'z'
}

/// The liquids *l r*.
pub open spec fn liquid(c: char) -> bool {
    c == 'l' || c == 'r'
}

/// The hard consonants *b c d f g j k l m n p r s t v x z*.
pub open spec fn hard_consonant(c: char) -> bool {
    voiced(c) || voiceless(c) || sonorant(c)
}

/// Returns whether `c` is a consonant, *excluding* apostrophe.
#[verifier::when_used_as_spec(hard_consonant)]
pub fn is_hard_consonant(c: char) -> (b: bool)
    ensures
        b == hard_consonant(c),
{
    matches!(
        c,
        'b' | 'c' | 'd' | 'f' | 'g' | 'j' | 'k' | 'l' | 'm' | 'n' | 'p' | 'r' | 's' | 't' | 'v'
            | 'x' | 'z'
    )
}

/// A hard consonant or the apostrophe.
pub open spec fn consonant(c: char) -> bool {
    hard_consonant(c) || c == '\''
}

/// Returns whether `c` is a consonant, *including* apostrophe.
#[verifier::when_used_as_spec(consonant)]
pub fn is_consonant(c: char) -> (b: bool)
    ensures
        b == consonant(c),
{
    is_hard_consonant(c) || c == '\''
}

/// Returns whether `c` is one of *l m n r*.
#[verifier::when_used_as_spec(sonorant)]
pub fn is_sonorant(c: char) -> (b: bool)
    ensures
        b == sonorant(c),
{
    c == 'l' || c == 'm' || c == 'n' || c == 'r'
}

fn is_voiced(c: char) -> (b: bool)
    ensures
        b == voiced(c),
{
    matches!(c, 'b' | 'd' | 'g' | 'j' | 'v' | 'z')
}

fn is_voiceless(c: char) -> (b: bool)
    ensures
        b == voiceless(c),
{
    matches!(c, 'c' | 'f' | 'k' | 'p' | 's' | 't' | 'x')
}

fn is_sibilant(c: char) -> (b: bool)
    ensures
        b == sibilant(c),
{
    matches!(c, 'c' | 'j' | 's' | 'z')
}

fn is_liquid(c: char) -> (b: bool)
    ensures
        b == liquid(c),
{
    c == 'l' || c == 'r'
}

// - clusters -

/// The consonant clusters that CLL permits between syllables: two different
/// hard consonants, not one voiced and the other voiceless (sonorants are
/// neither), not two sibilants, and none of *cx kx xc xk mz*.
pub open spec fn cll_cluster(x: char, y: char) -> bool {
    &&& hard_consonant(x) && hard_consonant(y)
    &&& x != y
    &&& !(voiced(x) && voiceless(y))
    &&& !(voiceless(x) && voiced(y))
    &&& !(sibilant(x) && sibilant(y))
    &&& !(x == 'c' && y == 'x')
    &&& !(x == 'k' && y == 'x')
    &&& !(x == 'x' && y == 'c')
    &&& !(x == 'x' && y == 'k')
    &&& !(x == 'm' && y == 'z')
}

/// A valid cluster under the given settings: a CLL cluster, or *mz* where
/// `allow_mz` is set.
pub open spec fn valid_cluster(x: char, y: char, allow_mz: bool) -> bool {
    cll_cluster(x, y) || (allow_mz && x == 'm' && y == 'z')
}

pub(crate) fn is_cll_cluster(x: char, y: char) -> (b: bool)
    ensures
        b == cll_cluster(x, y),
{
    is_hard_consonant(x) && is_hard_consonant(y) && x != y && !(is_voiced(x) && is_voiceless(y))
        && !(is_voiceless(x) && is_voiced(y)) && !(is_sibilant(x) && is_sibilant(y)) && !(x == 'c'
        && y == 'x') && !(x == 'k' && y == 'x') && !(x == 'x' && y == 'c') && !(x == 'x' && y
        == 'k') && !(x == 'm' && y == 'z')
}

/// Returns whether `x` and `y` form a valid consonant cluster. `settings` is
/// used for `allow_mz`.
pub fn is_valid_chars(x: char, y: char, settings: Settings) -> (b: bool)
    ensures
        b == valid_cluster(x, y, settings.allow_mz),
{
    is_cll_cluster(x, y) || settings.allow_mz && x == 'm' && y == 'z'
}

/// The consonant clusters that CLL permits at the start of a word: *bl br
/// cf ck cl cm cn cp cr ct dj dr dz fl fr gl gr jb jd jg jm jv kl kr ml mr pl
/// pr sf sk sl sm sn sp sr st tc tr ts vl vr xl xr zb zd zg zm zv*.
pub open spec fn initial_cluster(x: char, y: char) -> bool {
    if x == 'b' || x == 'f' || x == 'g' || x == 'k' || x == 'm' || x == 'p' || x == 'v' || x
        == 'x' {
        liquid(y)
    } else if x == 'c' || x == 's' {
        y == 'f' || y == 'k' || y == 'p' || y == 't' || sonorant(y)
    } else if x == 'j' || x == 'z' {
        y == 'b' || y == 'd' || y == 'g' || y == 'v' || y == 'm'
    } else if x == 'd' {
        y == 'j' || y == 'z' || y == 'r'
    } else if x == 't' {
        y == 'c' || y == 's' || y == 'r'
    } else {
        false
    }
}

/// Returns whether `x` and `y` form a valid word-initial consonant cluster.
#[verifier::when_used_as_spec(initial_cluster)]
pub fn is_initial_chars(x: char, y: char) -> (b: bool)
    ensures
        b == initial_cluster(x, y),
{
    match x {
        'b' | 'f' | 'g' | 'k' | 'm' | 'p' | 'v' | 'x' => is_liquid(y),
        'c' | 's' => matches!(y, 'f' | 'k' | 'p' | 't') || is_sonorant(y),
        'j' | 'z' => matches!(y, 'b' | 'd' | 'g' | 'v' | 'm'),
        'd' => matches!(y, 'j' | 'z' | 'r'),
        't' => matches!(y, 'c' | 's' | 'r'),
        _ => false,
    }
}

/// The triples *ndj ndz ntc nts* that CLL bans.
pub open spec fn banned_triple(x: char, y: char, z: char) -> bool {
    x == 'n' && ((y == 'd' && (z == 'j' || z == 'z')) || (y == 't' && (z == 'c' || z == 's')))
}

/// Returns whether `x`, `y`, and `z` form one of the consonant triples banned
/// by CLL: *ndj ndz ntc nts*.
#[verifier::when_used_as_spec(banned_triple)]
pub fn is_banned_triple_chars(x: char, y: char, z: char) -> (b: bool)
    ensures
        b == banned_triple(x, y, z),
{
    x == 'n' && ((y == 'd' && (z == 'j' || z == 'z')) || (y == 't' && (z == 'c' || z == 's')))
}

/// A hard onset: one hard consonant, a word-initial pair, or a sibilant,
/// consonant and liquid whose two pairs are both word-initial.
pub open spec fn hard_onset(s: Seq<char>) -> bool {
    if s.len() == 1 {
        hard_consonant(s[0])
    } else if s.len() == 2 {
        initial_cluster(s[0], s[1])
    } else if s.len() == 3 {
        sibilant(s[0]) && liquid(s[2]) && initial_cluster(s[0], s[1]) && initial_cluster(
            s[1],
            s[2],
        )
    } else {
        false
    }
}

/// `hard_onset` on a slice of characters.
pub(crate) fn is_hard_onset_chars(s: &[char]) -> (b: bool)
    ensures
        b == hard_onset(s@),
{
    if s.len() == 1 {
        is_hard_consonant(s[0])
    } else if s.len() == 2 {
        is_initial_chars(s[0], s[1])
    } else if s.len() == 3 {
        is_sibilant(s[0]) && is_liquid(s[2]) && is_initial_chars(s[0], s[1]) && is_initial_chars(
            s[1],
            s[2],
        )
    } else {
        false
    }
}

/// Returns whether `s` is a hard onset (an onset consisting only of characters
/// that [`is_hard_consonant`]). The empty onset, *denpa bu*, is one.
pub fn is_hard_onset(s: &str) -> (b: bool)
    ensures
        b == (s@.len() == 0 || hard_onset(s@)),
{
    let chars = collect_chars(s);
    chars.len() == 0 || is_hard_onset_chars(chars.as_slice())
}

// - hyphens -

/// The lujvo hyphens *r n y 'y y' 'y'*.
pub open spec fn hyphen(s: Seq<char>) -> bool {
    s == seq!['r'] || s == seq!['n'] || s == seq!['y'] || s == seq!['\'', 'y'] || s == seq![
        'y',
        '\'',
    ] || s == seq!['\'', 'y', '\'']
}

/// Returns whether `s` is a lujvo hyphen, used to prevent cmavo-shaped rafsi
/// from falling off the start of a lujvo and to delimit zi'evla inside a lujvo.
pub fn is_hyphen(s: &str) -> (b: bool)
    ensures
        b == hyphen(s@),
{
    let c = collect_chars(s);
    let r = if c.len() == 1 {
        c[0] == 'r' || c[0] == 'n' || c[0] == 'y'
    } else if c.len() == 2 {
        (c[0] == '\'' && c[1] == 'y') || (c[0] == 'y' && c[1] == '\'')
    } else if c.len() == 3 {
        c[0] == '\'' && c[1] == 'y' && c[2] == '\''
    } else {
        false
    };
    assert(c@.len() == 1 ==> (c@ == seq![c@[0]]));
    assert(c@.len() == 2 ==> (c@ == seq![c@[0], c@[1]]));
    assert(c@.len() == 3 ==> (c@ == seq![c@[0], c@[1], c@[2]]));
    r
}

} // verus!
