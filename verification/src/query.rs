//! Search queries: the terms of a query and the parser that splits a query
//! into them.

use vstd::prelude::*;
use vstd::slice::slice_subrange;

verus! {

/// The character that starts a bang.
pub const BANG_PREFIX: char = '!';

/// One term of a search query.
#[derive(Debug, PartialEq, Eq, Hash)]
pub enum Term {
    Simple(String),
    Phrase(String),
    Not(Box<Term>),
    Site(String),
    Title(String),
    Body(String),
    Url(String),
    PossibleBang(String),
}

/// A term as plain values.
pub enum TermView {
    Simple(Seq<char>),
    Phrase(Seq<char>),
    Not(Box<TermView>),
    Site(Seq<char>),
    Title(Seq<char>),
    Body(Seq<char>),
    Url(Seq<char>),
    PossibleBang(Seq<char>),
}

impl Term {
    /// The term as plain values.
    pub open spec fn shape(&self) -> TermView
        decreases self,
    {
        match self {
            Term::Simple(t) => TermView::Simple(t@),
            Term::Phrase(t) => TermView::Phrase(t@),
            Term::Not(t) => TermView::Not(Box::new(t.shape())),
            Term::Site(t) => TermView::Site(t@),
            Term::Title(t) => TermView::Title(t@),
            Term::Body(t) => TermView::Body(t@),
            Term::Url(t) => TermView::Url(t@),
            Term::PossibleBang(t) => TermView::PossibleBang(t@),
        }
    }
}

impl Clone for Term {
    fn clone(&self) -> (copy: Self)
        ensures
            copy.shape() == self.shape(),
        decreases self,
    {
        match self {
            Term::Simple(t) => Term::Simple(t.clone()),
            Term::Phrase(t) => Term::Phrase(t.clone()),
            Term::Not(t) => {
                let inner: &Term = &**t;
                Term::Not(Box::new(inner.clone()))
            },
            Term::Site(t) => Term::Site(t.clone()),
            Term::Title(t) => Term::Title(t.clone()),
            Term::Body(t) => Term::Body(t.clone()),
            Term::Url(t) => Term::Url(t.clone()),
            Term::PossibleBang(t) => Term::PossibleBang(t.clone()),
        }
    }
}

impl View for Term {
    type V = TermView;

    open spec fn view(&self) -> TermView {
        self.shape()
    }
}

impl TermView {
    /// The text that the term asks for, without its operator.
    pub open spec fn simple_text(self) -> Seq<char>
        decreases self,
    {
        match self {
            TermView::Simple(t) => t,
            TermView::Phrase(t) => t,
            TermView::Not(t) => t.simple_text(),
            TermView::Site(t) => t,
            TermView::Title(t) => t,
            TermView::Body(t) => t,
            TermView::Url(t) => t,
            TermView::PossibleBang(t) => t,
        }
    }

    /// The term as it is written in a query.
    pub open spec fn text(self) -> Seq<char>
        decreases self,
    {
        match self {
            TermView::Simple(t) => t,
            TermView::Phrase(t) => seq!['"'] + t + seq!['"'],
            TermView::Not(t) => seq!['-'] + t.text(),
            TermView::Site(t) => site_prefix() + t,
            TermView::Title(t) => title_prefix() + t,
            TermView::Body(t) => body_prefix() + t,
            TermView::Url(t) => url_prefix() + t,
            TermView::PossibleBang(t) => seq![BANG_PREFIX] + t,
        }
    }
}

/// The operator `site:`.
pub open spec fn site_prefix() -> Seq<char> {
    seq!['s', 'i', 't', 'e', ':']
}

/// The operator `intitle:`.
pub open spec fn title_prefix() -> Seq<char> {
    seq!['i', 'n', 't', 'i', 't', 'l', 'e', ':']
}

/// The operator `inbody:`.
pub open spec fn body_prefix() -> Seq<char> {
    seq!['i', 'n', 'b', 'o', 'd', 'y', ':']
}

/// The operator `inurl:`.
pub open spec fn url_prefix() -> Seq<char> {
    seq!['i', 'n', 'u', 'r', 'l', ':']
}

/// Whether a text starts with a prefix.
pub open spec fn starts_with(text: Seq<char>, prefix: Seq<char>) -> bool {
    prefix.len() <= text.len() && text.subrange(0, prefix.len() as int) == prefix
}

/// The term that one word of a query stands for. A minus in front negates
/// the rest, unless nothing or another minus follows; an operator with
/// something behind it makes a term for that operator; an exclamation mark makes a
/// possible bang; everything else is a simple term.
pub open spec fn term_of(word: Seq<char>) -> TermView
    decreases word.len(),
{
    if word.len() > 0 && word[0] == '-' {
        if word.len() > 1 && word[1] != '-' {
            TermView::Not(Box::new(term_of(word.skip(1))))
        } else {
            TermView::Simple(word)
        }
    } else if starts_with(word, site_prefix()) {
        if word.len() > site_prefix().len() {
            TermView::Site(word.skip(site_prefix().len() as int))
        } else {
            TermView::Simple(word)
        }
    } else if starts_with(word, title_prefix()) {
        if word.len() > title_prefix().len() {
            TermView::Title(word.skip(title_prefix().len() as int))
        } else {
            TermView::Simple(word)
        }
    } else if starts_with(word, body_prefix()) {
        if word.len() > body_prefix().len() {
            TermView::Body(word.skip(body_prefix().len() as int))
        } else {
            TermView::Simple(word)
        }
    } else if starts_with(word, url_prefix()) {
        if word.len() > url_prefix().len() {
            TermView::Url(word.skip(url_prefix().len() as int))
        } else {
            TermView::Simple(word)
        }
    } else if word.len() > 0 && word[0] == BANG_PREFIX {
        TermView::PossibleBang(word.skip(1))
    } else {
        TermView::Simple(word)
    }
}

/// Whether a character is white space: the characters with the Unicode
/// property `White_Space`.
pub open spec fn is_white(c: char) -> bool {
    let n = c as u32;
    ||| 0x09 <= n <= 0x0d
    ||| n == 0x20
    ||| n == 0x85
    ||| n == 0xa0
    ||| n == 0x1680
    ||| 0x2000 <= n <= 0x200a
    ||| n == 0x2028
    ||| n == 0x2029
    ||| n == 0x202f
    ||| n == 0x205f
    ||| n == 0x3000
}

/// Whether a character takes one byte in UTF-8.
pub open spec fn is_one_byte(c: char) -> bool {
    (c as u32) < 0x80
}

/// The first position from `from` on that holds a double quote, or the
/// length of the text if there is none.
pub open spec fn next_quote(text: Seq<char>, from: int) -> int
    decreases text.len() - from,
{
    if from >= text.len() {
        text.len() as int
    } else if text[from] == '"' {
        from
    } else {
        next_quote(text, from + 1)
    }
}

/// The first position from `from` on that holds white space, or the length
/// of the text if there is none.
pub open spec fn next_white(text: Seq<char>, from: int) -> int
    decreases text.len() - from,
{
    if from >= text.len() {
        text.len() as int
    } else if is_white(text[from]) {
        from
    } else {
        next_white(text, from + 1)
    }
}

/// Where a search from `from` ends.
pub proof fn lemma_next_quote_bounds(text: Seq<char>, from: int)
    requires
        0 <= from <= text.len(),
    ensures
        from <= next_quote(text, from) <= text.len(),
        next_quote(text, from) < text.len() ==> text[next_quote(text, from)] == '"',
        forall|i: int| from <= i < next_quote(text, from) ==> text[i] != '"',
    decreases text.len() - from,
{
    if from < text.len() && text[from] != '"' {
        lemma_next_quote_bounds(text, from + 1);
    }
}

/// Where a search from `from` ends.
pub proof fn lemma_next_white_bounds(text: Seq<char>, from: int)
    requires
        0 <= from <= text.len(),
    ensures
        from <= next_white(text, from) <= text.len(),
        next_white(text, from) < text.len() ==> is_white(text[next_white(text, from)]),
        forall|i: int| from <= i < next_white(text, from) ==> !is_white(text[i]),
    decreases text.len() - from,
{
    if from < text.len() && !is_white(text[from]) {
        lemma_next_white_bounds(text, from + 1);
    }
}

/// Where the parser goes on after a word that ended at `end`: behind the
/// white space there, if that takes one byte; at the white space itself, if
/// it takes more, which then starts the next word.
pub open spec fn after_word(text: Seq<char>, end: int) -> int {
    if end < text.len() && is_one_byte(text[end]) {
        end + 1
    } else {
        end
    }
}

/// The terms of a text from position `begin` on. At the start of a term:
/// a double quote with another one behind it makes a phrase of what stands
/// between the two, and the parser goes on behind the second; white space of
/// one byte is skipped; anything else starts a word that runs up to the next
/// white space.
pub open spec fn terms_from(text: Seq<char>, begin: int) -> Seq<TermView>
    decreases text.len() - begin,
{
    if begin < 0 || begin >= text.len() {
        Seq::empty()
    } else if text[begin] == '"' && next_quote(text, begin + 1) < text.len() {
        proof {
            lemma_next_quote_bounds(text, begin + 1);
        }
        seq![TermView::Phrase(text.subrange(begin + 1, next_quote(text, begin + 1)))] + terms_from(
            text,
            next_quote(text, begin + 1) + 1,
        )
    } else if is_white(text[begin]) && is_one_byte(text[begin]) {
        terms_from(text, begin + 1)
    } else {
        proof {
            lemma_next_white_bounds(text, begin + 1);
        }
        seq![term_of(text.subrange(begin, next_white(text, begin + 1)))] + terms_from(
            text,
            after_word(text, next_white(text, begin + 1)),
        )
    }
}

/// A text with its curly double quotes made straight.
pub open spec fn straightened(text: Seq<char>) -> Seq<char> {
    Seq::new(
        text.len(),
        |i: int|
            if text[i] == '\u{201c}' || text[i] == '\u{201d}' {
                '"'
            } else {
                text[i]
            },
    )
}

/// The lower-case form of a text, as the standard library gives it.
pub uninterp spec fn lowercased(text: Seq<char>) -> Seq<char>;

/// The terms of a list, as plain values.
pub open spec fn term_views(terms: Seq<Box<Term>>) -> Seq<TermView> {
    Seq::new(terms.len(), |i: int| terms[i].shape())
}

/// Calls `str::to_lowercase`, which gives the lower-case form of the text.
#[verifier::external_body]
fn lowercase_of(text: &str) -> (lower: String)
    ensures
        lower@ == lowercased(text@),
{
    text.to_lowercase()
}

/// Calls `String::from_iter` on the characters, which gives the string made
/// of them, in order.
#[verifier::external_body]
fn string_of(chars: &[char]) -> (text: String)
    ensures
        text@ == chars@,
{
    String::from_iter(chars.iter())
}

/// The characters of a text.
pub fn chars_of(text: &str) -> (chars: Vec<char>)
    ensures
        chars@ == text@,
{
    let mut chars: Vec<char> = Vec::new();
    for c in it: text.chars()
        invariant
            it.seq() == text@,
            chars@ == text@.take(it.index() as int),
    {
        chars.push(c);
        assert(text@.take(it.index() as int).push(c) =~= text@.take(it.index() as int + 1));
    }
    assert(text@.take(text@.len() as int) =~= text@);
    chars
}

/// Whether a character is white space.
pub fn is_whitespace(c: char) -> (white: bool)
    ensures
        white == is_white(c),
{
    let n: u32 = c as u32;
    (0x09 <= n && n <= 0x0d) || n == 0x20 || n == 0x85 || n == 0xa0 || n == 0x1680 || (0x2000 <= n
        && n <= 0x200a) || n == 0x2028 || n == 0x2029 || n == 0x202f || n == 0x205f || n == 0x3000
}

/// Whether the characters start with a prefix.
fn has_prefix(chars: &Vec<char>, prefix: &Vec<char>) -> (starts: bool)
    ensures
        starts == starts_with(chars@, prefix@),
{
    if prefix.len() > chars.len() {
        return false;
    }
    let mut i: usize = 0;
    while i < prefix.len()
        invariant
            i <= prefix@.len() <= chars@.len(),
            forall|j: int| 0 <= j < i ==> chars@[j] == prefix@[j],
        decreases prefix@.len() - i,
    {
        if chars[i] != prefix[i] {
            assert(chars@.subrange(0, prefix@.len() as int)[i as int] != prefix@[i as int]);
            return false;
        }
        i += 1;
    }
    assert(chars@.subrange(0, prefix@.len() as int) =~= prefix@);
    true
}

/// The string made of the characters from `from` on.
fn rest_of(chars: &Vec<char>, from: usize) -> (text: String)
    requires
        from <= chars@.len(),
    ensures
        text@ == chars@.skip(from as int),
{
    string_of(slice_subrange(chars.as_slice(), from, chars.len()))
}

/// A search operator that is written in front of its text.
enum Operator {
    Site,
    Title,
    Body,
    Url,
}

/// Makes a term of an operator and what stands behind it, or a simple term
/// of the whole word if nothing stands behind it.
fn operator_term(chars: &Vec<char>, prefix_len: usize, operator: Operator) -> (term: Box<Term>)
    requires
        prefix_len <= chars@.len(),
    ensures
        term.shape() == if chars@.len() > prefix_len {
            let rest = chars@.skip(prefix_len as int);
            match operator {
                Operator::Site => TermView::Site(rest),
                Operator::Title => TermView::Title(rest),
                Operator::Body => TermView::Body(rest),
                Operator::Url => TermView::Url(rest),
            }
        } else {
            TermView::Simple(chars@)
        },
{
    if chars.len() > prefix_len {
        let rest = rest_of(chars, prefix_len);
        match operator {
            Operator::Site => Box::new(Term::Site(rest)),
            Operator::Title => Box::new(Term::Title(rest)),
            Operator::Body => Box::new(Term::Body(rest)),
            Operator::Url => Box::new(Term::Url(rest)),
        }
    } else {
        let whole = rest_of(chars, 0);
        assert(chars@.skip(0) =~= chars@);
        Box::new(Term::Simple(whole))
    }
}

/// The term that the characters of one word stand for.
fn term_of_chars(chars: &Vec<char>) -> (term: Box<Term>)
    ensures
        term.shape() == term_of(chars@),
    decreases chars@.len(),
{
    assert(chars@.skip(0) =~= chars@);
    if chars.len() > 0 && chars[0] == '-' {
        if chars.len() > 1 && chars[1] != '-' {
            let mut rest: Vec<char> = Vec::new();
            let mut i: usize = 1;
            while i < chars.len()
                invariant
                    1 <= i <= chars@.len(),
                    rest@ == chars@.subrange(1, i as int),
                decreases chars@.len() - i,
            {
                rest.push(chars[i]);
                assert(chars@.subrange(1, i as int).push(chars@[i as int]) =~= chars@.subrange(
                    1,
                    i as int + 1,
                ));
                i += 1;
            }
            assert(chars@.subrange(1, chars@.len() as int) =~= chars@.skip(1));
            let inner = term_of_chars(&rest);
            return Box::new(Term::Not(inner));
        } else {
            return Box::new(Term::Simple(rest_of(chars, 0)));
        }
    }
    let site: Vec<char> = vec!['s', 'i', 't', 'e', ':'];
    let title: Vec<char> = vec!['i', 'n', 't', 'i', 't', 'l', 'e', ':'];
    let body: Vec<char> = vec!['i', 'n', 'b', 'o', 'd', 'y', ':'];
    let url: Vec<char> = vec!['i', 'n', 'u', 'r', 'l', ':'];
    assert(site@ =~= site_prefix());
    assert(title@ =~= title_prefix());
    assert(body@ =~= body_prefix());
    assert(url@ =~= url_prefix());
    if has_prefix(chars, &site) {
        operator_term(chars, site.len(), Operator::Site)
    } else if has_prefix(chars, &title) {
        operator_term(chars, title.len(), Operator::Title)
    } else if has_prefix(chars, &body) {
        operator_term(chars, body.len(), Operator::Body)
    } else if has_prefix(chars, &url) {
        operator_term(chars, url.len(), Operator::Url)
    } else if chars.len() > 0 && chars[0] == BANG_PREFIX {
        Box::new(Term::PossibleBang(rest_of(chars, 1)))
    } else {
        Box::new(Term::Simple(rest_of(chars, 0)))
    }
}

/// Parses one word of a query into its term.
pub fn parse_term(term: &str) -> (parsed: Box<Term>)
    ensures
        parsed.shape() == term_of(term@),
{
    let chars = chars_of(term);
    term_of_chars(&chars)
}

impl Term {
    /// The text that the term asks for, without its operator.
    pub fn as_simple_text(&self) -> (text: &str)
        ensures
            text@ == self.shape().simple_text(),
        decreases self,
    {
        match self {
            Term::Simple(term) => term.as_str(),
            Term::Phrase(terms) => terms.as_str(),
            Term::Not(term) => term.as_simple_text(),
            Term::Site(term) => term.as_str(),
            Term::Title(term) => term.as_str(),
            Term::Body(term) => term.as_str(),
            Term::Url(term) => term.as_str(),
            Term::PossibleBang(term) => term.as_str(),
        }
    }

    /// The term as it is written in a query.
    pub fn to_string(&self) -> (text: String)
        ensures
            text@ == self.shape().text(),
        decreases self,
    {
        proof {
            reveal_strlit("\"");
            reveal_strlit("-");
            reveal_strlit("site:");
            reveal_strlit("intitle:");
            reveal_strlit("inbody:");
            reveal_strlit("inurl:");
            reveal_strlit("!");
            assert("\""@ =~= seq!['"']);
            assert("-"@ =~= seq!['-']);
            assert("site:"@ =~= site_prefix());
            assert("intitle:"@ =~= title_prefix());
            assert("inbody:"@ =~= body_prefix());
            assert("inurl:"@ =~= url_prefix());
            assert("!"@ =~= seq![BANG_PREFIX]);
        }
        match self {
            Term::Simple(term) => term.clone(),
            Term::Phrase(phrase) => {
                let mut text = String::from_str("\"");
                text.append(phrase.as_str());
                text.append("\"");
                text
            },
            Term::Not(term) => {
                let inner = term.to_string();
                let mut text = String::from_str("-");
                text.append(inner.as_str());
                text
            },
            Term::Site(site) => {
                let mut text = String::from_str("site:");
                text.append(site.as_str());
                text
            },
            Term::Title(title) => {
                let mut text = String::from_str("intitle:");
                text.append(title.as_str());
                text
            },
            Term::Body(body) => {
                let mut text = String::from_str("inbody:");
                text.append(body.as_str());
                text
            },
            Term::Url(url) => {
                let mut text = String::from_str("inurl:");
                text.append(url.as_str());
                text
            },
            Term::PossibleBang(bang) => {
                let mut text = String::from_str("!");
                text.append(bang.as_str());
                text
            },
        }
    }
}

/// The first position from `from` on that holds a double quote, or the
/// number of characters if there is none.
fn find_quote(chars: &Vec<char>, from: usize) -> (at: usize)
    requires
        from <= chars@.len(),
    ensures
        at == next_quote(chars@, from as int),
        from <= at <= chars@.len(),
{
    let mut at: usize = from;
    while at < chars.len() && chars[at] != '"'
        invariant
            from <= at <= chars@.len(),
            next_quote(chars@, from as int) == next_quote(chars@, at as int),
        decreases chars@.len() - at,
    {
        at += 1;
    }
    at
}

/// The first position from `from` on that holds white space, or the number
/// of characters if there is none.
fn find_white(chars: &Vec<char>, from: usize) -> (at: usize)
    requires
        from <= chars@.len(),
    ensures
        at == next_white(chars@, from as int),
        from <= at <= chars@.len(),
{
    let mut at: usize = from;
    while at < chars.len() && !is_whitespace(chars[at])
        invariant
            from <= at <= chars@.len(),
            next_white(chars@, from as int) == next_white(chars@, at as int),
        decreases chars@.len() - at,
    {
        at += 1;
    }
    at
}

/// Parses a query that is in lower case already: makes its curly double
/// quotes straight and splits it into terms.
pub fn parse_lowercased(query: &str) -> (terms: Vec<Box<Term>>)
    ensures
        term_views(terms@) == terms_from(straightened(query@), 0),
{
    let mut chars = chars_of(query);
    let mut i: usize = 0;
    while i < chars.len()
        invariant
            i <= chars@.len(),
            chars@.len() == query@.len(),
            forall|j: int| 0 <= j < i ==> chars@[j] == straightened(query@)[j],
            forall|j: int| i <= j < chars@.len() ==> chars@[j] == query@[j],
        decreases chars@.len() - i,
    {
        if chars[i] == '\u{201c}' || chars[i] == '\u{201d}' {
            chars.set(i, '"');
        }
        i += 1;
    }
    assert(chars@ =~= straightened(query@));
    let ghost text = chars@;
    let mut res: Vec<Box<Term>> = Vec::new();
    let mut begin: usize = 0;
    assert(term_views(res@) =~= Seq::<TermView>::empty());
    while begin < chars.len()
        invariant
            begin <= chars@.len(),
            chars@ == text,
            term_views(res@) + terms_from(text, begin as int) == terms_from(text, 0),
        decreases chars@.len() - begin,
    {
        let ghost before = term_views(res@);
        if chars[begin] == '"' {
            let close = find_quote(&chars, begin + 1);
            if close < chars.len() {
                let phrase = string_of(slice_subrange(chars.as_slice(), begin + 1, close));
                res.push(Box::new(Term::Phrase(phrase)));
                proof {
                    let term = TermView::Phrase(text.subrange(begin as int + 1, close as int));
                    assert(term_views(res@) =~= before.push(term));
                    assert(before.push(term) + terms_from(text, close as int + 1) =~= before + (seq![
                        term,
                    ] + terms_from(text, close as int + 1)));
                }
                begin = close + 1;
                continue;
            }
        }
        let c = chars[begin];
        if is_whitespace(c) && (c as u32) < 0x80 {
            begin += 1;
            continue;
        }
        let end = find_white(&chars, begin + 1);
        let mut word: Vec<char> = Vec::new();
        let mut k: usize = begin;
        while k < end
            invariant
                begin <= k <= end <= chars@.len(),
                word@ == chars@.subrange(begin as int, k as int),
            decreases end - k,
        {
            word.push(chars[k]);
            assert(chars@.subrange(begin as int, k as int).push(chars@[k as int]) =~= chars@.subrange(
                begin as int,
                k as int + 1,
            ));
            k += 1;
        }
        res.push(term_of_chars(&word));
        proof {
            let term = term_of(text.subrange(begin as int, end as int));
            let next = after_word(text, end as int);
            assert(term_views(res@) =~= before.push(term));
            assert(before.push(term) + terms_from(text, next) =~= before + (seq![term] + terms_from(
                text,
                next,
            )));
        }
        begin = if end < chars.len() && (chars[end] as u32) < 0x80 {
            end + 1
        } else {
            end
        };
    }
    proof {
        assert(term_views(res@) + Seq::<TermView>::empty() =~= term_views(res@));
    }
    res
}

/// Parses a query into its terms: the query is put in lower case, its curly
/// double quotes are made straight, and what results is split into phrases
/// and words, each word standing for a term.
pub fn parse(query: &str) -> (terms: Vec<Box<Term>>)
    ensures
        term_views(terms@) == terms_from(straightened(lowercased(query@)), 0),
{
    let lower = lowercase_of(query);
    parse_lowercased(lower.as_str())
}

} // verus!
