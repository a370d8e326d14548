//! The tags of a text in markup.
//!
//! A text is read as a sequence of tags with other matter between them.
//! Text between tags is passed over, and so are comments (`<!--` to `-->`),
//! processing instructions (`<?` to `?>`) and declarations (`<!` to `>`). A
//! tag is `<name attributes>`, `<name attributes/>` or `</name>`. Each
//! attribute is white space, a name, `=` and a value between two `"` or two
//! `'`; a value holds no `<`. Values are taken as they stand: references
//! such as `&amp;` are not replaced. Of two attributes of one name in a tag
//! the first counts.

use vstd::prelude::*;
use crate::scan::{
    bytes_eq, find, find_word, has_word_at, is_name_byte, lemma_find, lemma_run_end, run_end,
    skip_run,
    starts_with, ByteClass, BANG, DOUBLE_QUOTE, EQUALS, GREATER_THAN, LESS_THAN, MINUS, QUESTION,
    SINGLE_QUOTE, SLASH,
};

verus! {

/// The bytes of a text from `start` up to `end`.
#[derive(Clone, Copy, Debug, PartialEq, Eq, Structural)]
pub struct Span {
    pub start: usize,
    pub end: usize,
}

/// Whether a tag opens an element, closes one, or is a whole element.
#[derive(Clone, Copy, Debug, PartialEq, Eq, Structural)]
pub enum TagKind {
    Open,
    Close,
    Empty,
}

/// A tag: its kind and where its name stands. Its attributes, if it has
/// any, begin where the name ends.
#[derive(Clone, Copy, Debug, PartialEq, Eq, Structural)]
pub struct Tag {
    pub kind: TagKind,
    pub name: Span,
}

impl Span {
    /// The bytes of `s` that the span covers.
    pub open spec fn of(self, s: Seq<u8>) -> Seq<u8> {
        s.subrange(self.start as int, self.end as int)
    }

    /// Whether the span lies within a text of `len` bytes.
    pub open spec fn within(self, len: nat) -> bool {
        self.start <= self.end <= len
    }
}

/// The value that follows the attribute name ending at `n`: `=`, with white
/// space around it or not, and the value in quotes. The result is where the
/// value starts and where it ends; the closing quote stands at its end.
pub open spec fn value_at(s: Seq<u8>, n: int) -> Option<(int, int)> {
    let e = run_end(s, n, ByteClass::Space);
    if 0 <= e < s.len() && s[e] == EQUALS {
        let q = run_end(s, e + 1, ByteClass::Space);
        if q < s.len() && s[q] == DOUBLE_QUOTE {
            let w = run_end(s, q + 1, ByteClass::DoubleQuoted);
            if w < s.len() && s[w] == DOUBLE_QUOTE {
                Some((q + 1, w))
            } else {
                None
            }
        } else if q < s.len() && s[q] == SINGLE_QUOTE {
            let w = run_end(s, q + 1, ByteClass::SingleQuoted);
            if w < s.len() && s[w] == SINGLE_QUOTE {
                Some((q + 1, w))
            } else {
                None
            }
        } else {
            None
        }
    } else {
        None
    }
}

/// A value lies behind its name and within the text.
pub proof fn lemma_value_at(s: Seq<u8>, n: int)
    requires
        0 <= n <= s.len(),
        value_at(s, n) is Some,
    ensures
        n + 2 <= value_at(s, n).unwrap().0 <= value_at(s, n).unwrap().1 < s.len(),
{
    lemma_run_end(s, n, ByteClass::Space);
    let e = run_end(s, n, ByteClass::Space);
    lemma_run_end(s, e + 1, ByteClass::Space);
    let q = run_end(s, e + 1, ByteClass::Space);
    lemma_run_end(s, q + 1, ByteClass::DoubleQuoted);
    lemma_run_end(s, q + 1, ByteClass::SingleQuoted);
}

/// The position behind the attributes that start at `p`, and behind the
/// white space that follows them; `None` where an attribute is not made as
/// it must be.
pub open spec fn attributes_end(s: Seq<u8>, p: int) -> Option<int>
    decreases s.len() - p,
{
    if p < 0 || p > s.len() {
        None
    } else {
        let q = run_end(s, p, ByteClass::Space);
        let n = run_end(s, q, ByteClass::Name);
        if n == q {
            Some(q)
        } else if q == p {
            None
        } else {
            match value_at(s, n) {
                None => None,
                Some((v, w)) => {
                    proof {
                        lemma_run_end(s, p, ByteClass::Space);
                        lemma_run_end(s, q, ByteClass::Name);
                        lemma_value_at(s, n);
                    }
                    attributes_end(s, w + 1)
                },
            }
        }
    }
}

/// The attributes end behind where they start, within the text.
pub proof fn lemma_attributes_end(s: Seq<u8>, p: int)
    requires
        attributes_end(s, p) is Some,
    ensures
        0 <= p <= attributes_end(s, p).unwrap() <= s.len(),
    decreases s.len() - p,
{
    let q = run_end(s, p, ByteClass::Space);
    let n = run_end(s, q, ByteClass::Name);
    lemma_run_end(s, p, ByteClass::Space);
    lemma_run_end(s, q, ByteClass::Name);
    if n != q {
        lemma_value_at(s, n);
        lemma_attributes_end(s, value_at(s, n).unwrap().1 + 1);
    }
}

/// Where the value of the first attribute called `name` stands, among the
/// attributes that start at `p`.
pub open spec fn attribute_from(s: Seq<u8>, p: int, name: Seq<u8>) -> Option<(int, int)>
    decreases s.len() - p,
{
    if p < 0 || p > s.len() {
        None
    } else {
        let q = run_end(s, p, ByteClass::Space);
        let n = run_end(s, q, ByteClass::Name);
        if n == q || q == p {
            None
        } else {
            match value_at(s, n) {
                None => None,
                Some((v, w)) => {
                    proof {
                        lemma_run_end(s, p, ByteClass::Space);
                        lemma_run_end(s, q, ByteClass::Name);
                        lemma_value_at(s, n);
                    }
                    if s.subrange(q, n) == name {
                        Some((v, w))
                    } else {
                        attribute_from(s, w + 1, name)
                    }
                },
            }
        }
    }
}

/// An attribute's value lies within the text.
pub proof fn lemma_attribute_from(s: Seq<u8>, p: int, name: Seq<u8>)
    requires
        attribute_from(s, p, name) is Some,
    ensures
        0 <= attribute_from(s, p, name).unwrap().0 <= attribute_from(s, p, name).unwrap().1
            < s.len(),
    decreases s.len() - p,
{
    let q = run_end(s, p, ByteClass::Space);
    let n = run_end(s, q, ByteClass::Name);
    lemma_run_end(s, p, ByteClass::Space);
    lemma_run_end(s, q, ByteClass::Name);
    lemma_value_at(s, n);
    if s.subrange(q, n) != name {
        lemma_attribute_from(s, value_at(s, n).unwrap().1 + 1, name);
    }
}

/// The value of the tag's first attribute called `name`.
pub open spec fn attribute(s: Seq<u8>, tag: Tag, name: Seq<u8>) -> Option<Seq<u8>> {
    match attribute_from(s, tag.name.end as int, name) {
        Some((v, w)) => Some(s.subrange(v, w)),
        None => None,
    }
}

/// The tag that starts with the `<` at `p`, and the position behind it.
pub open spec fn tag_at(s: Seq<u8>, p: int) -> Option<(Tag, int)> {
    let closing = p + 1 < s.len() && s[p + 1] == SLASH;
    let a = if closing { p + 2 } else { p + 1 };
    let b = run_end(s, a, ByteClass::Name);
    let name = Span { start: a as usize, end: b as usize };
    if b == a {
        None
    } else if closing {
        let g = run_end(s, b, ByteClass::Space);
        if g < s.len() && s[g] == GREATER_THAN {
            Some((Tag { kind: TagKind::Close, name }, g + 1))
        } else {
            None
        }
    } else {
        match attributes_end(s, b) {
            None => None,
            Some(g) => {
                if g < s.len() && s[g] == GREATER_THAN {
                    Some((Tag { kind: TagKind::Open, name }, g + 1))
                } else if g + 1 < s.len() && s[g] == SLASH && s[g + 1] == GREATER_THAN {
                    Some((Tag { kind: TagKind::Empty, name }, g + 2))
                } else {
                    None
                }
            },
        }
    }
}

/// A tag ends behind where it starts, within the text, and has a name of
/// one byte or more within it.
pub proof fn lemma_tag_at(s: Seq<u8>, p: int)
    requires
        0 <= p < s.len(),
        tag_at(s, p) is Some,
    ensures
        p < tag_at(s, p).unwrap().1 <= s.len(),
        s.len() <= usize::MAX ==> p < tag_at(s, p).unwrap().0.name.start < tag_at(
            s,
            p,
        ).unwrap().0.name.end < tag_at(s, p).unwrap().1,
{
    let closing = p + 1 < s.len() && s[p + 1] == SLASH;
    let a = if closing { p + 2 } else { p + 1 };
    let b = run_end(s, a, ByteClass::Name);
    lemma_run_end(s, a, ByteClass::Name);
    if closing {
        lemma_run_end(s, b, ByteClass::Space);
    } else {
        lemma_attributes_end(s, b);
    }
}

/// `<!--`, which opens a comment.
pub open spec fn comment_open() -> Seq<u8> {
    seq![LESS_THAN, BANG, MINUS, MINUS]
}

/// `-->`, which closes a comment.
pub open spec fn comment_close() -> Seq<u8> {
    seq![MINUS, MINUS, GREATER_THAN]
}

/// `<?`, which opens a processing instruction.
pub open spec fn instruction_open() -> Seq<u8> {
    seq![LESS_THAN, QUESTION]
}

/// `?>`, which closes a processing instruction.
pub open spec fn instruction_close() -> Seq<u8> {
    seq![QUESTION, GREATER_THAN]
}

/// `<!`, which opens a declaration.
pub open spec fn declaration_open() -> Seq<u8> {
    seq![LESS_THAN, BANG]
}

/// The tags of `s` from `p` on, in order; `None` where a comment or a
/// processing instruction or a declaration does not end, or a tag is not
/// made as it must be.
pub open spec fn tags_from(s: Seq<u8>, p: int) -> Option<Seq<Tag>>
    decreases s.len() - p,
{
    let t = run_end(s, p, ByteClass::Text);
    if p < 0 || t >= s.len() {
        Some(Seq::empty())
    } else {
        proof {
            lemma_run_end(s, p, ByteClass::Text);
        }
        if starts_with(s, t, comment_open()) {
            let e = find(s, t + comment_open().len(), comment_close());
            proof {
                lemma_find(s, t + comment_open().len(), comment_close());
            }
            if e + comment_close().len() <= s.len() {
                tags_from(s, e + comment_close().len())
            } else {
                None
            }
        } else if starts_with(s, t, instruction_open()) {
            let e = find(s, t + instruction_open().len(), instruction_close());
            proof {
                lemma_find(s, t + instruction_open().len(), instruction_close());
            }
            if e + instruction_close().len() <= s.len() {
                tags_from(s, e + instruction_close().len())
            } else {
                None
            }
        } else if starts_with(s, t, declaration_open()) {
            let e = run_end(s, t + declaration_open().len(), ByteClass::Declaration);
            proof {
                lemma_run_end(s, t + declaration_open().len(), ByteClass::Declaration);
            }
            if e < s.len() {
                tags_from(s, e + 1)
            } else {
                None
            }
        } else {
            match tag_at(s, t) {
                None => None,
                Some((tag, next)) => {
                    proof {
                        lemma_tag_at(s, t);
                    }
                    match tags_from(s, next) {
                        Some(rest) => Some(seq![tag] + rest),
                        None => None,
                    }
                },
            }
        }
    }
}

/// Whether the tag's name is a run of name bytes of `s` behind position
/// `from`, with `<` before it, or `</` where the tag is a closing tag.
pub open spec fn names_tag(s: Seq<u8>, tag: Tag, from: int) -> bool {
    let a = tag.name.start as int;
    let b = tag.name.end as int;
    &&& 0 <= from < a < b <= s.len()
    &&& forall|k: int| a <= k < b ==> is_name_byte(#[trigger] s[k])
    &&& b < s.len() ==> !is_name_byte(s[b])
    &&& if tag.kind == TagKind::Close {
        a >= 2 && s[a - 2] == LESS_THAN && s[a - 1] == SLASH
    } else {
        s[a - 1] == LESS_THAN
    }
}

/// The tag read at a `<` has its name right behind it.
pub proof fn lemma_tag_at_name(s: Seq<u8>, p: int)
    requires
        0 <= p < s.len() <= usize::MAX,
        s[p] == LESS_THAN,
        tag_at(s, p) is Some,
    ensures
        names_tag(s, tag_at(s, p).unwrap().0, p),
        tag_at(s, p).unwrap().0.name.end < tag_at(s, p).unwrap().1 <= s.len(),
{
    let closing = p + 1 < s.len() && s[p + 1] == SLASH;
    let a = if closing { p + 2 } else { p + 1 };
    lemma_run_end(s, a, ByteClass::Name);
    lemma_tag_at(s, p);
}

/// The tags of a text stand in it one behind the other, each with its name
/// behind a `<`.
pub proof fn lemma_tags_from(s: Seq<u8>, p: int)
    requires
        0 <= p <= s.len() <= usize::MAX,
        tags_from(s, p) is Some,
    ensures
        forall|i: int|
            0 <= i < tags_from(s, p).unwrap().len() ==> names_tag(
                s,
                #[trigger] tags_from(s, p).unwrap()[i],
                p,
            ),
        forall|i: int, j: int|
            0 <= i < j < tags_from(s, p).unwrap().len() ==> (#[trigger] tags_from(
                s,
                p,
            ).unwrap()[i]).name.end < (#[trigger] tags_from(s, p).unwrap()[j]).name.start,
    decreases s.len() - p,
{
    let tags = tags_from(s, p).unwrap();
    let t = run_end(s, p, ByteClass::Text);
    lemma_run_end(s, p, ByteClass::Text);
    if t < s.len() {
        if starts_with(s, t, comment_open()) {
            let e = find(s, t + comment_open().len(), comment_close());
            lemma_find(s, t + comment_open().len(), comment_close());
            lemma_tags_from(s, e + comment_close().len());
        } else if starts_with(s, t, instruction_open()) {
            let e = find(s, t + instruction_open().len(), instruction_close());
            lemma_find(s, t + instruction_open().len(), instruction_close());
            lemma_tags_from(s, e + instruction_close().len());
        } else if starts_with(s, t, declaration_open()) {
            let e = run_end(s, t + declaration_open().len(), ByteClass::Declaration);
            lemma_run_end(s, t + declaration_open().len(), ByteClass::Declaration);
            lemma_tags_from(s, e + 1);
        } else {
            let (tag, next) = tag_at(s, t).unwrap();
            lemma_tag_at_name(s, t);
            lemma_tags_from(s, next);
            let rest = tags_from(s, next).unwrap();
            assert(tags == seq![tag] + rest);
            assert forall|i: int| 0 <= i < tags.len() implies names_tag(s, #[trigger] tags[i], p) by {
                if i > 0 {
                    assert(tags[i] == rest[i - 1]);
                    assert(names_tag(s, rest[i - 1], next));
                }
            }
            assert forall|i: int, j: int| 0 <= i < j < tags.len() implies (#[trigger] tags[i]).name.end
                < (#[trigger] tags[j]).name.start by {
                assert(tags[j] == rest[j - 1]);
                assert(names_tag(s, rest[j - 1], next));
                if i > 0 {
                    assert(tags[i] == rest[i - 1]);
                }
            }
        }
    }
}

fn comment_open_word() -> (r: Vec<u8>)
    ensures
        r@ == comment_open(),
{
    vec![LESS_THAN, BANG, MINUS, MINUS]
}

fn comment_close_word() -> (r: Vec<u8>)
    ensures
        r@ == comment_close(),
{
    vec![MINUS, MINUS, GREATER_THAN]
}

fn instruction_open_word() -> (r: Vec<u8>)
    ensures
        r@ == instruction_open(),
{
    vec![LESS_THAN, QUESTION]
}

fn instruction_close_word() -> (r: Vec<u8>)
    ensures
        r@ == instruction_close(),
{
    vec![QUESTION, GREATER_THAN]
}

fn declaration_open_word() -> (r: Vec<u8>)
    ensures
        r@ == declaration_open(),
{
    vec![LESS_THAN, BANG]
}

/// Reads the value that follows the attribute name ending at `n`.
pub fn read_value(s: &[u8], n: usize) -> (r: Option<(usize, usize)>)
    ensures
        r matches Some(v) ==> value_at(s@, n as int) == Some((v.0 as int, v.1 as int)) && v.0
            <= v.1 < s@.len() <= usize::MAX,
        r is None <==> value_at(s@, n as int) is None,
{
    if n > s.len() {
        return None;
    }
    let e = skip_run(s, n, ByteClass::Space);
    if e >= s.len() || s[e] != EQUALS {
        return None;
    }
    let q = skip_run(s, e + 1, ByteClass::Space);
    if q >= s.len() {
        return None;
    }
    if s[q] == DOUBLE_QUOTE {
        let w = skip_run(s, q + 1, ByteClass::DoubleQuoted);
        if w < s.len() && s[w] == DOUBLE_QUOTE {
            Some((q + 1, w))
        } else {
            None
        }
    } else if s[q] == SINGLE_QUOTE {
        let w = skip_run(s, q + 1, ByteClass::SingleQuoted);
        if w < s.len() && s[w] == SINGLE_QUOTE {
            Some((q + 1, w))
        } else {
            None
        }
    } else {
        None
    }
}

/// Passes over the attributes that start at `p`.
pub fn skip_attributes(s: &[u8], p: usize) -> (r: Option<usize>)
    ensures
        r matches Some(g) ==> attributes_end(s@, p as int) == Some(g as int),
        r is None <==> attributes_end(s@, p as int) is None,
{
    if p > s.len() {
        return None;
    }
    let mut at: usize = p;
    loop
        invariant
            at <= s@.len(),
            attributes_end(s@, p as int) == attributes_end(s@, at as int),
        decreases s@.len() - at,
    {
        let q = skip_run(s, at, ByteClass::Space);
        let n = skip_run(s, q, ByteClass::Name);
        if n == q {
            return Some(q);
        }
        if q == at {
            return None;
        }
        match read_value(s, n) {
            None => {
                return None;
            },
            Some((v, w)) => {
                proof {
                    lemma_value_at(s@, n as int);
                }
                at = w + 1;
            },
        }
    }
}

/// Finds the value of the first attribute called `name` among the
/// attributes that start at `p`.
pub fn find_attribute(s: &[u8], p: usize, name: &[u8]) -> (r: Option<Span>)
    ensures
        r matches Some(v) ==> attribute_from(s@, p as int, name@) == Some(
            (v.start as int, v.end as int),
        ) && v.within(s@.len()),
        r is None <==> attribute_from(s@, p as int, name@) is None,
{
    if p > s.len() {
        return None;
    }
    let mut at: usize = p;
    loop
        invariant
            at <= s@.len(),
            attribute_from(s@, p as int, name@) == attribute_from(s@, at as int, name@),
        decreases s@.len() - at,
    {
        let q = skip_run(s, at, ByteClass::Space);
        let n = skip_run(s, q, ByteClass::Name);
        if n == q || q == at {
            return None;
        }
        match read_value(s, n) {
            None => {
                return None;
            },
            Some((v, w)) => {
                proof {
                    lemma_value_at(s@, n as int);
                }
                if bytes_eq(vstd::slice::slice_subrange(s, q, n), name) {
                    return Some(Span { start: v, end: w });
                }
                at = w + 1;
            },
        }
    }
}

impl Tag {
    /// The tag's name.
    pub(crate) fn name_in<'a>(&self, s: &'a [u8]) -> (r: &'a [u8])
        requires
            self.name.within(s@.len()),
        ensures
            r@ == self.name.of(s@),
    {
        vstd::slice::slice_subrange(s, self.name.start, self.name.end)
    }

    /// The value of the tag's first attribute called `name`.
    pub fn attribute_in<'a>(&self, s: &'a [u8], name: &[u8]) -> (r: Option<&'a [u8]>)
        ensures
            r matches Some(v) ==> attribute(s@, *self, name@) == Some(v@),
            r is None <==> attribute(s@, *self, name@) is None,
    {
        match find_attribute(s, self.name.end, name) {
            Some(v) => Some(vstd::slice::slice_subrange(s, v.start, v.end)),
            None => None,
        }
    }
}

/// Reads the tag that starts with the `<` at `p`.
pub fn read_tag(s: &[u8], p: usize) -> (r: Option<(Tag, usize)>)
    ensures
        r matches Some(found) ==> tag_at(s@, p as int) == Some((found.0, found.1 as int))
            && found.0.name.within(s@.len()) && p < found.1 <= s@.len(),
        r is None <==> tag_at(s@, p as int) is None,
{
    let len = s.len();
    if p >= len {
        return None;
    }
    let closing = p + 1 < len && s[p + 1] == SLASH;
    let a = if closing { p + 2 } else { p + 1 };
    let b = skip_run(s, a, ByteClass::Name);
    let name = Span { start: a, end: b };
    if b == a {
        return None;
    }
    if closing {
        let g = skip_run(s, b, ByteClass::Space);
        if g < s.len() && s[g] == GREATER_THAN {
            Some((Tag { kind: TagKind::Close, name }, g + 1))
        } else {
            None
        }
    } else {
        match skip_attributes(s, b) {
            None => None,
            Some(g) => {
                proof {
                    lemma_attributes_end(s@, b as int);
                }
                if g < s.len() && s[g] == GREATER_THAN {
                    Some((Tag { kind: TagKind::Open, name }, g + 1))
                } else if g < s.len() - 1 && s[g] == SLASH && s[g + 1] == GREATER_THAN {
                    Some((Tag { kind: TagKind::Empty, name }, g + 2))
                } else {
                    None
                }
            },
        }
    }
}

/// Whether every tag's name lies within a text of `len` bytes.
pub open spec fn tags_within(tags: Seq<Tag>, len: nat) -> bool {
    forall|i: int| 0 <= i < tags.len() ==> (#[trigger] tags[i]).name.within(len)
}

/// Reads the tags of a text.
pub fn read_tags(s: &[u8]) -> (r: Option<Vec<Tag>>)
    ensures
        r matches Some(tags) ==> tags_from(s@, 0) == Some(tags@) && tags_within(tags@, s@.len()),
        r is None <==> tags_from(s@, 0) is None,
{
    let c_open = comment_open_word();
    let c_close = comment_close_word();
    let i_open = instruction_open_word();
    let i_close = instruction_close_word();
    let d_open = declaration_open_word();
    let mut tags: Vec<Tag> = Vec::new();
    let mut p: usize = 0;
    assert(tags@ + tags_from(s@, 0).unwrap() =~= tags_from(s@, 0).unwrap());
    loop
        invariant
            p <= s@.len(),
            c_open@ == comment_open(),
            c_close@ == comment_close(),
            i_open@ == instruction_open(),
            i_close@ == instruction_close(),
            d_open@ == declaration_open(),
            tags_within(tags@, s@.len()),
            tags_from(s@, 0) == match tags_from(s@, p as int) {
                Some(rest) => Some(tags@ + rest),
                None => None,
            },
        decreases s@.len() - p,
    {
        let t = skip_run(s, p, ByteClass::Text);
        if t >= s.len() {
            assert(tags@ + Seq::<Tag>::empty() =~= tags@);
            return Some(tags);
        }
        if has_word_at(s, t, c_open.as_slice()) {
            let e = find_word(s, t + c_open.len(), c_close.as_slice());
            if c_close.len() <= s.len() - e {
                p = e + c_close.len();
            } else {
                return None;
            }
        } else if has_word_at(s, t, i_open.as_slice()) {
            let e = find_word(s, t + i_open.len(), i_close.as_slice());
            if i_close.len() <= s.len() - e {
                p = e + i_close.len();
            } else {
                return None;
            }
        } else if has_word_at(s, t, d_open.as_slice()) {
            let e = skip_run(s, t + d_open.len(), ByteClass::Declaration);
            if e < s.len() {
                p = e + 1;
            } else {
                return None;
            }
        } else {
            match read_tag(s, t) {
                None => {
                    return None;
                },
                Some((tag, next)) => {
                    let ghost before = tags@;
                    tags.push(tag);
                    p = next;
                    proof {
                        let rest = tags_from(s@, next as int);
                        if rest is Some {
                            assert(before + (seq![tag] + rest.unwrap()) =~= tags@ + rest.unwrap());
                        }
                    }
                },
            }
        }
    }
}

} // verus!
