//! Rooted request paths: their text, their segments, and the join that
//! re-bases one path under another.

use vstd::prelude::*;
use vstd::std_specs::iter::IteratorSpec;

verus! {

/// The character that separates the segments of a path. A rooted path
/// begins with it.
pub open spec fn slash() -> char {
    '/'
}

/// A path text is rooted when it begins at the path root.
pub open spec fn is_rooted(text: Seq<char>) -> bool {
    text.len() > 0 && text[0] == slash()
}

/// The pieces of `text` between its slashes, empty ones included. A text of
/// `n` slashes has `n + 1` pieces.
pub open spec fn split(text: Seq<char>) -> Seq<Seq<char>>
    decreases text.len(),
{
    if text.len() == 0 {
        seq![Seq::<char>::empty()]
    } else {
        let before = split(text.drop_last());
        if text.last() == slash() {
            before.push(Seq::<char>::empty())
        } else {
            before.drop_last().push(before.last().push(text.last()))
        }
    }
}

/// A piece names a segment unless it is empty or the single dot that stands
/// for "this same place".
pub open spec fn names_segment(piece: Seq<char>) -> bool {
    piece.len() > 0 && piece != seq!['.']
}

/// `names_segment`, as the test by which pieces are kept.
pub open spec fn kept() -> spec_fn(Seq<char>) -> bool {
    |piece: Seq<char>| names_segment(piece)
}

/// The segments of a path, in order: the pieces between its slashes that
/// name something. Doubled and trailing slashes add nothing.
pub open spec fn segments(text: Seq<char>) -> Seq<Seq<char>> {
    split(text).filter(kept())
}

/// What a list of pieces holds, piece by piece.
pub open spec fn texts(pieces: Seq<Vec<char>>) -> Seq<Seq<char>> {
    pieces.map_values(|piece: Vec<char>| piece@)
}

/// `text`, closed by a slash unless it already ends in one.
pub open spec fn slash_ended(text: Seq<char>) -> Seq<char> {
    if text.len() > 0 && text.last() == slash() {
        text
    } else {
        text.push(slash())
    }
}

/// The text of `inner` re-based under `prefix`: the prefix, one slash
/// between the two, and `inner` without its own root marker.
pub open spec fn join(prefix: Seq<char>, inner: Seq<char>) -> Seq<char> {
    slash_ended(prefix) + inner.skip(1)
}

/// Two texts name the same path when both are rooted, or both are not, and
/// their segments agree.
pub open spec fn same_path(a: Seq<char>, b: Seq<char>) -> bool {
    is_rooted(a) == is_rooted(b) && segments(a) == segments(b)
}

/// Tells whether `text` begins at the path root.
pub fn rooted(text: &str) -> (r: bool)
    ensures
        r == is_rooted(text@),
{
    if text.is_empty() {
        false
    } else {
        text.get_char(0) == '/'
    }
}

/// A rooted path. It keeps the text it was made from.
#[derive(Debug)]
pub struct RoutePath {
    text: String,
}

impl View for RoutePath {
    type V = Seq<char>;

    closed spec fn view(&self) -> Seq<char> {
        self.text@
    }
}

impl RoutePath {
    /// Every path is rooted.
    #[verifier::type_invariant]
    pub open spec fn well_formed(&self) -> bool {
        is_rooted(self@)
    }

    /// Makes a path of `text`, if `text` is rooted.
    pub fn new(text: &str) -> (r: Option<RoutePath>)
        ensures
            match r {
                Some(p) => is_rooted(text@) && p@ == text@,
                None => !is_rooted(text@),
            },
    {
        if rooted(text) {
            Some(RoutePath { text: String::from_str(text) })
        } else {
            None
        }
    }

    /// The text of the path.
    pub fn as_str(&self) -> (s: &str)
        ensures
            s@ == self@,
            is_rooted(s@),
    {
        proof {
            use_type_invariant(self);
        }
        self.text.as_str()
    }

    /// Re-bases `inner` under this path.
    pub fn join(&self, inner: &RoutePath) -> (r: RoutePath)
        ensures
            r@ == join(self@, inner@),
            segments(r@) == segments(self@) + segments(inner@),
    {
        proof {
            use_type_invariant(self);
            use_type_invariant(inner);
            reveal_strlit("/");
            lemma_join_appends_segments(self@, inner@);
        }
        let own = self.text.as_str();
        let own_len = own.unicode_len();
        let mut text = self.text.clone();
        if own.get_char(own_len - 1) != '/' {
            text.append("/");
            assert(text@ =~= slash_ended(self@));
        }
        let rest = inner.text.as_str();
        let rest_len = rest.unicode_len();
        text.append(rest.substring_char(1, rest_len));
        assert(inner@.skip(1) =~= inner@.subrange(1, rest_len as int));
        RoutePath { text }
    }
}

/// The characters of `text`, one by one.
fn chars_of(text: &str) -> (chars: Vec<char>)
    ensures
        chars@ == text@,
{
    let mut chars: Vec<char> = Vec::new();
    let mut rest = text.chars();
    loop
        invariant
            rest.obeys_prophetic_iter_laws(),
            chars@ + rest.remaining() == text@,
        ensures
            chars@ == text@,
        decreases text@.len() - chars@.len(),
    {
        let ghost before = rest.remaining();
        match rest.next() {
            Some(c) => {
                chars.push(c);
                assert(chars@ + rest.remaining() =~= text@);
            },
            None => {
                assert(chars@ =~= chars@ + before);
                break ;
            },
        }
    }
    chars
}

/// A text always has a last piece.
pub proof fn lemma_split_nonempty(text: Seq<char>)
    ensures
        split(text).len() >= 1,
    decreases text.len(),
{
    if text.len() > 0 {
        lemma_split_nonempty(text.drop_last());
    }
}

/// Splitting at a slash splits each side by itself: the pieces of
/// `left`, a slash and `right` are those of `left` and then those of `right`.
pub proof fn lemma_split_at_slash(left: Seq<char>, right: Seq<char>)
    ensures
        split(left + seq![slash()] + right) == split(left) + split(right),
    decreases right.len(),
{
    let whole = left + seq![slash()] + right;
    if right.len() == 0 {
        assert(whole.drop_last() =~= left);
        assert(split(left).push(Seq::<char>::empty()) =~= split(left) + split(right));
    } else {
        let shorter = right.drop_last();
        lemma_split_at_slash(left, shorter);
        lemma_split_nonempty(shorter);
        assert(whole.drop_last() =~= left + seq![slash()] + shorter);
        assert(whole.last() == right.last());
        assert(split(whole) =~= split(left) + split(right));
    }
}

/// Joining appends segments: the segments of `inner` re-based under `prefix`
/// are those of `prefix` followed by those of `inner`, and the result is
/// rooted where `prefix` is.
pub proof fn lemma_join_appends_segments(prefix: Seq<char>, inner: Seq<char>)
    requires
        is_rooted(inner),
    ensures
        segments(join(prefix, inner)) == segments(prefix) + segments(inner),
        is_rooted(prefix) ==> is_rooted(join(prefix, inner)),
{
    let empty = Seq::<char>::empty();
    let rest = inner.skip(1);
    // `inner` is a slash and then `rest`.
    assert(inner =~= empty + seq![slash()] + rest);
    lemma_split_at_slash(empty, rest);
    Seq::filter_distributes_over_add(split(empty), split(rest), kept());
    reveal_with_fuel(Seq::filter, 2);
    assert(split(empty) =~= seq![empty]);
    assert(seq![empty].drop_last() =~= Seq::<Seq<char>>::empty());
    assert(split(empty).filter(kept()) =~= Seq::<Seq<char>>::empty());
    assert(segments(inner) =~= split(rest).filter(kept()));
    if prefix.len() > 0 && prefix.last() == slash() {
        let head = prefix.drop_last();
        assert(prefix =~= head + seq![slash()] + empty);
        lemma_split_at_slash(head, empty);
        Seq::filter_distributes_over_add(split(head), split(empty), kept());
        assert(segments(prefix) =~= split(head).filter(kept()));
        assert(join(prefix, inner) =~= head + seq![slash()] + rest);
        lemma_split_at_slash(head, rest);
        Seq::filter_distributes_over_add(split(head), split(rest), kept());
    } else {
        assert(join(prefix, inner) =~= prefix + seq![slash()] + rest);
        lemma_split_at_slash(prefix, rest);
        Seq::filter_distributes_over_add(split(prefix), split(rest), kept());
    }
}

/// Naming the same path is an equivalence.
pub proof fn lemma_same_path_is_equivalence(a: Seq<char>, b: Seq<char>, c: Seq<char>)
    ensures
        same_path(a, a),
        same_path(a, b) ==> same_path(b, a),
        same_path(a, b) && same_path(b, c) ==> same_path(a, c),
{
}

/// Joining is a matter of paths, not of texts: prefixes that name the same
/// path, joined by inner paths that name the same path, give the same path.
pub proof fn lemma_join_respects_same_path(
    prefix: Seq<char>,
    inner: Seq<char>,
    other_prefix: Seq<char>,
    other_inner: Seq<char>,
)
    requires
        is_rooted(prefix),
        is_rooted(inner),
        same_path(prefix, other_prefix),
        same_path(inner, other_inner),
    ensures
        same_path(join(prefix, inner), join(other_prefix, other_inner)),
{
    lemma_join_appends_segments(prefix, inner);
    lemma_join_appends_segments(other_prefix, other_inner);
}

/// Filtering a list that ends in `last` filters the rest and then decides
/// on `last`.
proof fn lemma_filter_push(rest: Seq<Seq<char>>, last: Seq<char>)
    ensures
        rest.push(last).filter(kept()) == if names_segment(last) {
            rest.filter(kept()).push(last)
        } else {
            rest.filter(kept())
        },
{
    reveal(Seq::filter);
    assert(rest.push(last).drop_last() =~= rest);
}

/// Tells whether a piece names a segment.
fn piece_names_segment(piece: &Vec<char>) -> (r: bool)
    ensures
        r == names_segment(piece@),
{
    if piece.len() == 0 {
        false
    } else if piece.len() == 1 && piece[0] == '.' {
        assert(piece@ =~= seq!['.']);
        false
    } else {
        assert(piece@ != seq!['.']) by {
            if piece@ == seq!['.'] {
                assert(seq!['.'].len() == 1);
                assert(seq!['.'][0] == '.');
            }
        }
        true
    }
}

/// The segments of `text`, in order.
pub(crate) fn segments_of(text: &str) -> (kept_pieces: Vec<Vec<char>>)
    ensures
        texts(kept_pieces@) == segments(text@),
{
    let chars = chars_of(text);
    let mut kept_pieces: Vec<Vec<char>> = Vec::new();
    let mut piece: Vec<char> = Vec::new();
    let mut i: usize = 0;
    assert(chars@.take(0) =~= Seq::<char>::empty());
    assert(split(chars@.take(0)).drop_last() =~= Seq::<Seq<char>>::empty());
    assert(texts(kept_pieces@) =~= Seq::<Seq<char>>::empty());
    while i < chars.len()
        invariant
            i <= chars.len(),
            chars@ == text@,
            split(chars@.take(i as int)).len() >= 1,
            texts(kept_pieces@) == split(chars@.take(i as int)).drop_last().filter(kept()),
            piece@ == split(chars@.take(i as int)).last(),
        decreases chars.len() - i,
    {
        let c = chars[i];
        proof {
            let seen = chars@.take(i as int);
            let next = chars@.take(i + 1);
            assert(next.drop_last() =~= seen);
            assert(next.last() == c);
            let closed = split(seen).drop_last();
            assert(split(seen) =~= closed.push(piece@));
            lemma_filter_push(closed, piece@);
            lemma_split_nonempty(next);
            if c == slash() {
                assert(split(next).drop_last() =~= split(seen));
            } else {
                assert(split(next).drop_last() =~= closed);
            }
        }
        if c == '/' {
            if piece_names_segment(&piece) {
                let ghost before = kept_pieces@;
                kept_pieces.push(piece);
                assert(texts(kept_pieces@) =~= texts(before).push(piece@));
            }
            piece = Vec::new();
        } else {
            piece.push(c);
        }
        i += 1;
    }
    proof {
        assert(chars@.take(i as int) =~= chars@);
        let closed = split(chars@).drop_last();
        assert(split(chars@) =~= closed.push(piece@));
        lemma_filter_push(closed, piece@);
    }
    if piece_names_segment(&piece) {
        let ghost before = kept_pieces@;
        kept_pieces.push(piece);
        assert(texts(kept_pieces@) =~= texts(before).push(piece@));
    }
    kept_pieces
}

/// Tells whether two pieces hold the same characters.
fn same_piece(a: &Vec<char>, b: &Vec<char>) -> (r: bool)
    ensures
        r == (a@ == b@),
{
    if a.len() != b.len() {
        return false;
    }
    let mut i: usize = 0;
    while i < a.len()
        invariant
            i <= a.len(),
            a.len() == b.len(),
            forall|k: int| 0 <= k < i ==> a@[k] == b@[k],
        decreases a.len() - i,
    {
        if a[i] != b[i] {
            return false;
        }
        i += 1;
    }
    assert(a@ =~= b@);
    true
}

/// Tells whether two lists of pieces hold the same pieces in the same order.
pub(crate) fn same_pieces(a: &Vec<Vec<char>>, b: &Vec<Vec<char>>) -> (r: bool)
    ensures
        r == (texts(a@) == texts(b@)),
{
    if a.len() != b.len() {
        assert(texts(a@).len() != texts(b@).len());
        return false;
    }
    let mut i: usize = 0;
    while i < a.len()
        invariant
            i <= a.len(),
            a.len() == b.len(),
            forall|k: int| 0 <= k < i ==> a@[k]@ == b@[k]@,
        decreases a.len() - i,
    {
        if !same_piece(&a[i], &b[i]) {
            assert(texts(a@)[i as int] != texts(b@)[i as int]);
            return false;
        }
        i += 1;
    }
    assert(texts(a@) =~= texts(b@));
    true
}

impl RoutePath {
    /// Tells whether this path has exactly the given segments.
    pub(crate) fn has_segments(&self, wanted: &Vec<Vec<char>>) -> (r: bool)
        ensures
            r == (segments(self@) == texts(wanted@)),
    {
        let own = segments_of(self.text.as_str());
        same_pieces(&own, wanted)
    }

    /// Tells whether `text` names this same path.
    pub fn same_as(&self, text: &str) -> (r: bool)
        ensures
            r == same_path(self@, text@),
    {
        proof {
            use_type_invariant(self);
        }
        if rooted(text) {
            let wanted = segments_of(text);
            self.has_segments(&wanted)
        } else {
            false
        }
    }
}

impl PartialEq for RoutePath {
    /// Two paths are equal when their segments agree.
    fn eq(&self, other: &Self) -> (r: bool) {
        proof {
            use_type_invariant(self);
            use_type_invariant(other);
        }
        let wanted = segments_of(other.text.as_str());
        self.has_segments(&wanted)
    }
}

impl vstd::std_specs::cmp::PartialEqSpecImpl for RoutePath {
    open spec fn obeys_eq_spec() -> bool {
        true
    }

    open spec fn eq_spec(&self, other: &Self) -> bool {
        same_path(self@, other@)
    }
}

impl Clone for RoutePath {
    fn clone(&self) -> (r: Self)
        ensures
            r@ == self@,
    {
        proof {
            use_type_invariant(self);
        }
        RoutePath { text: self.text.clone() }
    }
}

} // verus!
