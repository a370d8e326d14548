//! How the tags of a text nest into elements.

use vstd::prelude::*;
use crate::markup::{tags_within, Tag, TagKind};
use crate::model::ids_view;
use crate::scan::bytes_eq;

verus! {

/// The tags that are open behind the first `n` tags, outermost first, as
/// positions in `tags`; `None` where, among these `n`, a tag closes what is
/// not open or not of its name, or a tag follows the end of the first
/// element.
pub open spec fn open_tags(s: Seq<u8>, tags: Seq<Tag>, n: int) -> Option<Seq<int>>
    decreases n,
{
    if n <= 0 {
        Some(Seq::empty())
    } else {
        match open_tags(s, tags, n - 1) {
            None => None,
            Some(stack) => {
                let tag = tags[n - 1];
                if stack.len() == 0 && n > 1 {
                    None
                } else {
                    match tag.kind {
                        TagKind::Open => Some(stack.push(n - 1)),
                        TagKind::Empty => Some(stack),
                        TagKind::Close => {
                            if stack.len() > 0 && tags[stack.last()].name.of(s) == tag.name.of(s) {
                                Some(stack.drop_last())
                            } else {
                                None
                            }
                        },
                    }
                }
            },
        }
    }
}

/// The tags make up one element: there is a tag, each closing tag closes
/// the innermost open tag and has its name, nothing stays open, and nothing
/// follows the end of the first element.
pub open spec fn well_nested(s: Seq<u8>, tags: Seq<Tag>) -> bool {
    tags.len() > 0 && open_tags(s, tags, tags.len() as int) == Some(Seq::<int>::empty())
}

/// How deep the element of the tag at `i` lies: 0 for the root element, 1
/// for the elements within it, and so on. A closing tag has the level of
/// the tag that it closes.
pub open spec fn level(s: Seq<u8>, tags: Seq<Tag>, i: int) -> int {
    match open_tags(s, tags, i) {
        Some(stack) => if tags[i].kind == TagKind::Close {
            stack.len() - 1
        } else {
            stack.len() as int
        },
        None => 0,
    }
}

/// Whether `levels` holds the level of each tag.
pub open spec fn levels_match(s: Seq<u8>, tags: Seq<Tag>, levels: Seq<usize>) -> bool {
    &&& levels.len() == tags.len()
    &&& forall|i: int| 0 <= i < tags.len() ==> #[trigger] levels[i] == level(s, tags, i)
}

/// Whether the tag at `i` begins an element called `word` at this level.
pub open spec fn is_element(s: Seq<u8>, tags: Seq<Tag>, i: int, depth: int, word: Seq<u8>) -> bool {
    &&& tags[i].kind != TagKind::Close
    &&& level(s, tags, i) == depth
    &&& tags[i].name.of(s) == word
}

/// The first element called `word` at level `depth` among the tags from
/// `from` on, as far as they lie at that level or deeper.
pub open spec fn element_from(
    s: Seq<u8>,
    tags: Seq<Tag>,
    from: int,
    depth: int,
    word: Seq<u8>,
) -> Option<int>
    decreases tags.len() - from,
{
    if from < 0 || from >= tags.len() || level(s, tags, from) < depth {
        None
    } else if is_element(s, tags, from, depth, word) {
        Some(from)
    } else {
        element_from(s, tags, from + 1, depth, word)
    }
}

/// An element that `element_from` finds is one of the tags from `from` on.
pub proof fn lemma_element_from(s: Seq<u8>, tags: Seq<Tag>, from: int, depth: int, word: Seq<u8>)
    requires
        element_from(s, tags, from, depth, word) is Some,
    ensures
        0 <= from <= element_from(s, tags, from, depth, word).unwrap() < tags.len(),
        is_element(s, tags, element_from(s, tags, from, depth, word).unwrap(), depth, word),
    decreases tags.len() - from,
{
    if !is_element(s, tags, from, depth, word) {
        lemma_element_from(s, tags, from + 1, depth, word);
    }
}

/// Once the nesting is broken it stays broken.
pub proof fn lemma_open_tags_broken(s: Seq<u8>, tags: Seq<Tag>, a: int, b: int)
    requires
        a <= b,
        open_tags(s, tags, a) is None,
    ensures
        open_tags(s, tags, b) is None,
    decreases b - a,
{
    if a < b {
        lemma_open_tags_broken(s, tags, a, b - 1);
    }
}

/// Where the nesting holds behind `b` tags, it holds behind fewer.
pub proof fn lemma_open_tags_earlier(s: Seq<u8>, tags: Seq<Tag>, a: int, b: int)
    requires
        a <= b,
        open_tags(s, tags, b) is Some,
    ensures
        open_tags(s, tags, a) is Some,
{
    if open_tags(s, tags, a) is None {
        lemma_open_tags_broken(s, tags, a, b);
    }
}

/// Well-nested tags have one root: the first tag begins it, at level 0, and
/// every tag behind the first stands within it.
pub proof fn lemma_one_root(s: Seq<u8>, tags: Seq<Tag>, i: int)
    requires
        well_nested(s, tags),
        0 <= i < tags.len(),
    ensures
        tags[0].kind != TagKind::Close,
        level(s, tags, 0) == 0,
        open_tags(s, tags, i) is Some,
        i > 0 ==> open_tags(s, tags, i).unwrap().len() >= 1,
        i > 0 ==> level(s, tags, i) >= if tags[i].kind == TagKind::Close {
            0int
        } else {
            1int
        },
{
    lemma_open_tags_earlier(s, tags, 1, tags.len() as int);
    lemma_open_tags_earlier(s, tags, i, tags.len() as int);
    lemma_open_tags_earlier(s, tags, i + 1, tags.len() as int);
    assert(open_tags(s, tags, 0) == Some(Seq::<int>::empty()));
}

/// The level of each tag: `None` exactly when the tags are not well nested.
pub(crate) fn nesting_levels(s: &[u8], tags: &Vec<Tag>) -> (r: Option<Vec<usize>>)
    requires
        tags_within(tags@, s@.len()),
    ensures
        r is Some <==> well_nested(s@, tags@),
        r matches Some(levels) ==> levels_match(s@, tags@, levels@),
{
    let mut stack: Vec<usize> = Vec::new();
    let mut levels: Vec<usize> = Vec::new();
    let mut n: usize = 0;
    assert(ids_view(stack@) =~= Seq::<int>::empty());
    while n < tags.len()
        invariant
            n <= tags@.len(),
            tags_within(tags@, s@.len()),
            open_tags(s@, tags@, n as int) == Some(ids_view(stack@)),
            forall|k: int| 0 <= k < stack@.len() ==> #[trigger] stack@[k] < n,
            stack@.len() <= n,
            levels@.len() == n,
            forall|i: int| 0 <= i < n ==> #[trigger] levels@[i] == level(s@, tags@, i),
        decreases tags@.len() - n,
    {
        let tag = tags[n];
        let ghost before = ids_view(stack@);
        if stack.len() == 0 && n > 0 {
            proof {
                assert(open_tags(s@, tags@, n + 1) is None);
                lemma_open_tags_broken(s@, tags@, n + 1, tags@.len() as int);
            }
            return None;
        }
        match tag.kind {
            TagKind::Open => {
                levels.push(stack.len());
                stack.push(n);
                assert(ids_view(stack@) =~= before.push(n as int));
            },
            TagKind::Empty => {
                levels.push(stack.len());
            },
            TagKind::Close => {
                if stack.len() == 0 {
                    proof {
                        assert(open_tags(s@, tags@, n + 1) is None);
                        lemma_open_tags_broken(s@, tags@, n + 1, tags@.len() as int);
                    }
                    return None;
                }
                let top = stack[stack.len() - 1];
                assert(before.last() == top);
                if !bytes_eq(tags[top].name_in(s), tag.name_in(s)) {
                    proof {
                        assert(open_tags(s@, tags@, n + 1) is None);
                        lemma_open_tags_broken(s@, tags@, n + 1, tags@.len() as int);
                    }
                    return None;
                }
                stack.pop();
                levels.push(stack.len());
                assert(ids_view(stack@) =~= before.drop_last());
            },
        }
        n += 1;
    }
    if tags.len() == 0 || stack.len() != 0 {
        return None;
    }
    assert(ids_view(stack@) =~= Seq::<int>::empty());
    Some(levels)
}

/// Finds the first element called `word` at level `depth` among the tags
/// from `from` on, as far as they lie at that level or deeper.
pub(crate) fn find_element(
    s: &[u8],
    tags: &Vec<Tag>,
    levels: &Vec<usize>,
    from: usize,
    depth: usize,
    word: &[u8],
) -> (r: Option<usize>)
    requires
        tags_within(tags@, s@.len()),
        levels_match(s@, tags@, levels@),
    ensures
        r matches Some(i) ==> element_from(s@, tags@, from as int, depth as int, word@) == Some(
            i as int,
        ) && from <= i < tags@.len(),
        r is None <==> element_from(s@, tags@, from as int, depth as int, word@) is None,
{
    let mut k: usize = from;
    while k < tags.len() && levels[k] >= depth
        invariant
            from <= k,
            tags_within(tags@, s@.len()),
            levels_match(s@, tags@, levels@),
            element_from(s@, tags@, from as int, depth as int, word@) == element_from(
                s@,
                tags@,
                k as int,
                depth as int,
                word@,
            ),
        decreases tags@.len() - k,
    {
        let tag = tags[k];
        if tag.kind != TagKind::Close && levels[k] == depth && bytes_eq(tag.name_in(s), word) {
            return Some(k);
        }
        k += 1;
    }
    None
}

} // verus!
