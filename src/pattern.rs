use vstd::prelude::*;
use regex::Regex;


verus! {

/// A compiled regular expression of the regex crate, carried without a look inside.
#[verifier::external_type_specification]
#[verifier::external_body]
pub struct ExRegex(regex::Regex);

/// Whether `p` compiles as a regular expression.
pub uninterp spec fn pattern_compiles(p: Seq<char>) -> bool;

/// Whether the regular expression `p` matches somewhere inside `text`.
pub uninterp spec fn pattern_finds(p: Seq<char>, text: Seq<char>) -> bool;

/// What a subscriber is interested in.
#[derive(Debug, Clone, Hash, Eq, PartialEq)]
pub enum Subscribe {
    /// Every variable.
    All,
    /// The variables named in the list.
    Envs(Vec<String>),
    /// The variables whose key some regular expression of the list matches.
    PatternEnvs(Vec<String>),
}

/// What a `Subscribe` says, over character sequences.
pub enum InterestView {
    All,
    Keys(Seq<Seq<char>>),
    Patterns(Seq<Seq<char>>),
}

/// The strings of a list as character sequences.
pub open spec fn strings_view(v: Seq<String>) -> Seq<Seq<char>> {
    v.map_values(|s: String| s@)
}

impl View for Subscribe {
    type V = InterestView;

    open spec fn view(&self) -> InterestView {
        match self {
            Subscribe::All => InterestView::All,
            Subscribe::Envs(v) => InterestView::Keys(strings_view(v@)),
            Subscribe::PatternEnvs(v) => InterestView::Patterns(strings_view(v@)),
        }
    }
}

/// Whether a subscription of this kind is interested in `key`: always for
/// `All`; for `Keys` where the key is listed; for `Patterns` where some
/// pattern matches inside the key.
pub open spec fn kind_matches(kind: InterestView, key: Seq<char>) -> bool {
    match kind {
        InterestView::All => true,
        InterestView::Keys(ks) => ks.contains(key),
        InterestView::Patterns(ps) => exists|i: int| 0 <= i < ps.len() && pattern_finds(#[trigger] ps[i], key),
    }
}

/// Every pattern of the list compiles.
pub open spec fn all_compile(ps: Seq<Seq<char>>) -> bool {
    forall|i: int| 0 <= i < ps.len() ==> pattern_compiles(#[trigger] ps[i])
}

/// Every pattern of the kind compiles (true of the kinds without patterns).
pub open spec fn patterns_compile(kind: InterestView) -> bool {
    match kind {
        InterestView::Patterns(ps) => all_compile(ps),
        _ => true,
    }
}

/// `e` reports the first pattern of `ps` that does not compile.
pub open spec fn reports_first_invalid(ps: Seq<Seq<char>>, e: crate::error::Error) -> bool {
    match e {
        crate::error::Error::InvalidPattern { pattern, .. } => exists|i: int|
            0 <= i < ps.len() && !pattern_compiles(ps[i]) && pattern@ == ps[i] && (forall|j: int|
                0 <= j < i ==> pattern_compiles(#[trigger] ps[j])),
        _ => false,
    }
}

/// A compiled key pattern together with the text it was compiled from.
pub struct KeyPattern {
    source: String,
    regex: Regex,
}

impl KeyPattern {
    /// The text the pattern was compiled from.
    pub closed spec fn source(&self) -> Seq<char> {
        self.source@
    }
}

/// Relies on `regex::Regex::new`: whether a pattern compiles depends on the
/// pattern alone; the compiled regex is kept beside its text, and a failure
/// is handed back as the error's message.
#[verifier::external_body]
fn compile_pattern(p: &String) -> (r: Result<KeyPattern, String>)
    ensures
        r is Ok <==> pattern_compiles(p@),
        r matches Ok(kp) ==> kp.source() == p@,
{
    match Regex::new(p) {
        Ok(regex) => Ok(KeyPattern { source: p.clone(), regex }),
        Err(e) => Err(e.to_string()),
    }
}

/// Relies on `regex::Regex::find`: whether a match exists somewhere in the
/// text depends on the pattern's text and on the text alone.
#[verifier::external_body]
fn pattern_finds_in(p: &KeyPattern, text: &String) -> (r: bool)
    ensures
        r == pattern_finds(p.source(), text@),
{
    p.regex.find(text).is_some()
}

/// The compiled patterns stand for the pattern texts, one for one.
pub open spec fn compiled_from(patterns: Seq<KeyPattern>, ps: Seq<Seq<char>>) -> bool {
    &&& patterns.len() == ps.len()
    &&& forall|i: int| 0 <= i < ps.len() ==> (#[trigger] patterns[i]).source() == ps[i]
}

/// Compiles each pattern of the list, stopping at the first that fails.
pub fn compile_patterns(ps: &Vec<String>) -> (r: Result<Vec<KeyPattern>, crate::error::Error>)
    ensures
        r is Ok <==> all_compile(strings_view(ps@)),
        r matches Ok(v) ==> compiled_from(v@, strings_view(ps@)),
        r matches Err(e) ==> reports_first_invalid(strings_view(ps@), e),
{
    let ghost sv = strings_view(ps@);
    let mut out: Vec<KeyPattern> = Vec::new();
    let mut i: usize = 0;
    while i < ps.len()
        invariant
            sv == strings_view(ps@),
            i <= ps@.len(),
            compiled_from(out@, sv.subrange(0, i as int)),
            forall|j: int| 0 <= j < i ==> pattern_compiles(#[trigger] sv[j]),
        decreases ps@.len() - i,
    {
        match compile_pattern(&ps[i]) {
            Ok(kp) => {
                out.push(kp);
            },
            Err(error) => {
                let err = crate::error::Error::InvalidPattern { pattern: ps[i].clone(), error };
                assert(sv.len() == ps@.len());
                assert(sv[i as int] == ps@[i as int]@);
                assert(!pattern_compiles(sv[i as int]));
                assert(reports_first_invalid(sv, err));

                return Err(err);
            },
        }
        i = i + 1;
    }
    assert(sv.subrange(0, i as int) =~= sv);
    Ok(out)
}

/// Whether any of the compiled patterns matches somewhere inside `key`.
pub fn any_pattern_finds(patterns: &Vec<KeyPattern>, key: &String) -> (r: bool)
    ensures
        r == exists|i: int| 0 <= i < patterns@.len() && pattern_finds((#[trigger] patterns@[i]).source(), key@),
{
    let mut i: usize = 0;
    while i < patterns.len()
        invariant
            i <= patterns@.len(),
            forall|j: int| 0 <= j < i ==> !pattern_finds((#[trigger] patterns@[j]).source(), key@),
        decreases patterns@.len() - i,
    {
        if pattern_finds_in(&patterns[i], key) {
            return true;
        }
        i = i + 1;
    }
    false
}

/// Whether `key` is one of the listed keys.
pub fn key_listed(keys: &Vec<String>, key: &String) -> (r: bool)
    ensures
        r == strings_view(keys@).contains(key@),
{
    let mut i: usize = 0;
    while i < keys.len()
        invariant
            i <= keys@.len(),
            forall|j: int| 0 <= j < i ==> (#[trigger] keys@[j])@ != key@,
        decreases keys@.len() - i,
    {
        if keys[i] == *key {
            assert(strings_view(keys@)[i as int] == key@);
            return true;
        }
        i = i + 1;
    }
    assert(!strings_view(keys@).contains(key@)) by {
        if strings_view(keys@).contains(key@) {
            let j = choose|j: int| 0 <= j < keys@.len() && strings_view(keys@)[j] == key@;
            assert(keys@[j]@ == key@);
        }
    }
    false
}

/// Whether a subscription of kind `kind`, whose patterns compiled to
/// `patterns`, is interested in `key`.
pub fn kind_matches_key(kind: &Subscribe, patterns: &Vec<KeyPattern>, key: &String) -> (r: bool)
    requires
        kind matches Subscribe::PatternEnvs(ps) ==> compiled_from(patterns@, strings_view(ps@)),
    ensures
        r == kind_matches(kind@, key@),
{
    match kind {
        Subscribe::All => {
            assert(kind@ == InterestView::All);
            true
        },
        Subscribe::Envs(keys) => key_listed(keys, key),
        Subscribe::PatternEnvs(ps) => {
            let r = any_pattern_finds(patterns, key);
            proof {
                let sv = strings_view(ps@);
                assert(kind@ == InterestView::Patterns(sv));
                assert(compiled_from(patterns@, sv));
                if r {
                    let i = choose|i: int| 0 <= i < patterns@.len() && pattern_finds((#[trigger] patterns@[i]).source(), key@);
                    assert(patterns@[i].source() == sv[i]);
                    assert(pattern_finds(sv[i], key@));
                    assert(kind_matches(kind@, key@));
                }
                if kind_matches(kind@, key@) {
                    let i = choose|i: int| 0 <= i < sv.len() && pattern_finds(#[trigger] sv[i], key@);
                    assert(pattern_finds(patterns@[i].source(), key@));
                }
            }
            r
        },
    }
}

} // verus!
