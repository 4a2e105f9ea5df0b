//! Tokenization and term processing: text is split on runs of Unicode
//! spaces, newlines and punctuation, and each token is lowercased.
use regex::Regex;
use rustc_hash::FxBuildHasher;
use std::collections::HashSet;
use vstd::prelude::*;

verus! {

#[verifier::external_type_specification]
#[verifier::external_body]
pub struct ExRegex(Regex);

/// The pieces of `text` between the matches of the regular expression
/// `pattern`, as `Regex::split` of the `regex` crate gives them.
pub uninterp spec fn regex_split(pattern: Seq<char>, text: Seq<char>) -> Seq<Seq<char>>;

/// Whether the `regex` crate compiles `pattern` (`Regex::new` succeeds).
pub uninterp spec fn pattern_compiles(pattern: Seq<char>) -> bool;

/// The pattern that separates tokens, as a sequence of characters.
pub open spec fn token_pattern() -> Seq<char> {
    TOKEN_PATTERN@
}

/// The tokens of `text`: the pieces between maximal runs of newlines,
/// Unicode separators (`\p{Z}`) and Unicode punctuation (`\p{P}`). A
/// leading or trailing run yields an empty token.
pub open spec fn token_split(text: Seq<char>) -> Seq<Seq<char>> {
    regex_split(token_pattern(), text)
}

/// `text` converted to lowercase by `str::to_lowercase`.
pub uninterp spec fn lowercase_text(text: Seq<char>) -> Seq<char>;

/// The distinct token texts collected by a token set.
pub uninterp spec fn token_set_contents(set: HashSet<String, FxBuildHasher>) -> Set<Seq<char>>;

/// The pattern that separates tokens.
pub const TOKEN_PATTERN: &'static str = "[\\n\\r\\p{Z}\\p{P}]+";

/// A character that lowercasing leaves unchanged without consulting the
/// Unicode tables: ASCII, and not an uppercase letter.
pub open spec fn plain_lower(c: char) -> bool {
    (c as u32) < 128 && !('A' <= c && c <= 'Z')
}

/// The term that a token becomes: none for an empty token, else the token
/// in lowercase.
pub open spec fn process_spec(token: Seq<char>) -> Option<Seq<char>> {
    if token.len() == 0 {
        None
    } else if forall|i: int| 0 <= i < token.len() ==> plain_lower(#[trigger] token[i]) {
        Some(token)
    } else {
        Some(lowercase_text(token))
    }
}

/// The terms of a token sequence, in order, empty tokens dropped.
pub open spec fn processed_terms(tokens: Seq<Seq<char>>) -> Seq<Seq<char>>
    decreases tokens.len(),
{
    if tokens.len() == 0 {
        Seq::empty()
    } else {
        processed_terms(tokens.drop_last()) + match process_spec(tokens.last()) {
            Some(term) => seq![term],
            None => Seq::empty(),
        }
    }
}

/// The terms of a text.
pub open spec fn text_terms(text: Seq<char>) -> Seq<Seq<char>> {
    processed_terms(token_split(text))
}

/// The number of distinct tokens of a text.
pub open spec fn distinct_tokens(text: Seq<char>) -> nat {
    token_split(text).to_set().len()
}

/// The set of the first `count` items, one more at a time.
pub proof fn lemma_take_to_set<A>(items: Seq<A>, count: int)
    requires
        0 <= count < items.len(),
    ensures
        items.take(count + 1).to_set() == items.take(count).to_set().insert(items[count]),
{
    let a = items.take(count + 1);
    let b = items.take(count);
    assert forall|x: A| a.to_set().contains(x) <==> b.to_set().insert(items[count]).contains(x) by {
        if a.contains(x) {
            let i = choose|i: int| 0 <= i < a.len() && a[i] == x;
            if i < count {
                assert(b[i] == x);
            }
        }
        if b.contains(x) {
            let i = choose|i: int| 0 <= i < b.len() && b[i] == x;
            assert(a[i] == x);
        }
        if x == items[count] {
            assert(a[count] == x);
        }
    }
    assert(a.to_set() =~= b.to_set().insert(items[count]));
}

/// The views of a list of strings.
pub open spec fn views(strings: Seq<String>) -> Seq<Seq<char>> {
    strings.map_values(|s: String| s@)
}

/// A compiled regular expression, with the pattern it was compiled from.
pub struct Compiled {
    regex: Regex,
    pattern: Ghost<Seq<char>>,
}

impl Compiled {
    /// The pattern that the regex was compiled from.
    pub closed spec fn pattern(&self) -> Seq<char> {
        self.pattern@
    }
}

/// `Regex::new`: compiles `pattern`, and keeps the pattern beside the
/// compiled regex. It succeeds exactly when the `regex` crate compiles the
/// pattern, which the name `pattern_compiles` stands for.
#[verifier::external_body]
fn compile_regex(pattern: &str) -> (compiled: Option<Compiled>)
    ensures
        compiled is Some == pattern_compiles(pattern@),
        compiled matches Some(c) ==> c.pattern() == pattern@,
{
    match Regex::new(pattern) {
        Ok(regex) => Some(Compiled { regex, pattern: Ghost(pattern@) }),
        Err(_) => None,
    }
}

/// `Regex::split` with a compiled regex, each piece copied into a
/// `String`. A `Compiled` is made only by `compile_regex`, which keeps the
/// pattern its regex was compiled from, so the pieces are those that
/// `regex_split` names for that pattern. For `TOKEN_PATTERN` a run of
/// separators is one non-empty match, so there are at most as many matches
/// as characters and one piece more than matches.
#[verifier::external_body]
fn split_pieces(compiled: &Compiled, text: &str) -> (pieces: Vec<String>)
    ensures
        views(pieces@) == regex_split(compiled.pattern(), text@),
        compiled.pattern() == token_pattern() ==> pieces@.len() <= text@.len() + 1,
{
    compiled.regex.split(text).map(|piece| piece.to_string()).collect()
}

/// The compiled token separator: a regex compiled from `TOKEN_PATTERN`.
pub struct Tokenizer {
    compiled: Compiled,
}

impl Tokenizer {
    #[verifier::type_invariant]
    spec fn splits_tokens(self) -> bool {
        self.compiled.pattern() == token_pattern()
    }
}

/// `str::to_lowercase`.
#[verifier::external_body]
pub(crate) fn lowercase(text: &str) -> (lower: String)
    ensures
        lower@ == lowercase_text(text@),
{
    text.to_lowercase()
}

/// `FxHashSet::default`: an empty set.
#[verifier::external_body]
pub(crate) fn new_token_set() -> (set: HashSet<String, FxBuildHasher>)
    ensures
        token_set_contents(set) == Set::<Seq<char>>::empty(),
{
    HashSet::default()
}

/// `HashSet::insert`: adds a token.
#[verifier::external_body]
pub(crate) fn token_set_insert(set: &mut HashSet<String, FxBuildHasher>, token: String)
    ensures
        token_set_contents(*final(set)) == token_set_contents(*old(set)).insert(token@),
{
    set.insert(token);
}

/// `HashSet::len`: the number of distinct tokens.
#[verifier::external_body]
fn token_set_len(set: &HashSet<String, FxBuildHasher>) -> (len: usize)
    ensures
        len == token_set_contents(*set).len(),
{
    set.len()
}

/// `HashSet::contains`: whether the set holds `token`.
#[verifier::external_body]
pub(crate) fn token_set_contains(set: &HashSet<String, FxBuildHasher>, token: &str) -> (found: bool)
    ensures
        found == token_set_contents(*set).contains(token@),
{
    set.contains(token)
}

impl Tokenizer {
    /// The pattern that this tokenizer splits on.
    pub closed spec fn pattern(&self) -> Seq<char> {
        self.compiled.pattern()
    }

    /// Compiles `TOKEN_PATTERN`: there is a tokenizer exactly when the
    /// `regex` crate compiles the pattern, and it splits on that pattern.
    pub fn new() -> (tokenizer: Option<Tokenizer>)
        ensures
            tokenizer is Some == pattern_compiles(token_pattern()),
            tokenizer matches Some(t) ==> t.pattern() == token_pattern(),
    {
        match compile_regex(TOKEN_PATTERN) {
            Some(compiled) => Some(Tokenizer { compiled }),
            None => None,
        }
    }

    /// The tokens of `text`.
    pub fn tokenize(&self, text: &str) -> (tokens: Vec<String>)
        ensures
            views(tokens@) == token_split(text@),
            tokens@.len() <= text@.len() + 1,
    {
        proof {
            use_type_invariant(self);
        }
        split_pieces(&self.compiled, text)
    }

    /// The terms of `text` and the number of its distinct tokens.
    pub fn terms(&self, text: &str) -> (result: (Vec<String>, usize))
        ensures
            views(result.0@) == text_terms(text@),
            result.0@.len() <= text@.len() + 1,
            result.1 == distinct_tokens(text@),
    {
        let tokens = self.tokenize(text);
        let mut unique = new_token_set();
        let mut terms: Vec<String> = Vec::new();
        let ghost all = views(tokens@);
        let mut i: usize = 0;
        while i < tokens.len()
            invariant
                i <= tokens@.len(),
                all == views(tokens@),
                token_set_contents(unique) == all.take(i as int).to_set(),
                views(terms@) == processed_terms(all.take(i as int)),
                terms@.len() <= i,
            decreases tokens@.len() - i,
        {
            let token = &tokens[i];
            proof {
                assert(all.take(i + 1).drop_last() =~= all.take(i as int));
                assert(all.take(i + 1).last() == token@);
                assert(all.take(i + 1).to_set() =~= all.take(i as int).to_set().insert(token@));
            }
            token_set_insert(&mut unique, token.clone());
            match process_term(token.as_str()) {
                Some(term) => {
                    terms.push(term);
                    proof {
                        assert(views(terms@) =~= views(terms@.drop_last()).push(
                            terms@.last()@,
                        ));
                    }
                },
                None => {},
            }
            i = i + 1;
        }
        proof {
            assert(all.take(tokens@.len() as int) =~= all);
        }
        (terms, token_set_len(&unique))
    }
}

/// Turns a token into a term: empty tokens are dropped, and the rest are
/// lowercased. Text that is ASCII without uppercase letters, the common case
/// for indexed prose, is copied as it is.
pub fn process_term(token: &str) -> (term: Option<String>)
    ensures
        match term {
            Some(t) => process_spec(token@) == Some(t@),
            None => process_spec(token@) is None,
        },
{
    let chars = crate::text::chars_of(token);
    if chars.len() == 0 {
        return None;
    }
    let mut plain = true;
    let mut i: usize = 0;
    while i < chars.len()
        invariant
            i <= chars@.len(),
            plain == forall|j: int| 0 <= j < i ==> plain_lower(#[trigger] chars@[j]),
        decreases chars@.len() - i,
    {
        let c = chars[i];
        if !((c as u32) < 128 && !('A' <= c && c <= 'Z')) {
            plain = false;
        }
        i = i + 1;
    }
    if plain {
        Some(crate::text::string_of(&chars))
    } else {
        Some(lowercase(token))
    }
}

} // verus!
