//! Program paths: slash-separated paths relative to the project root, with
//! `.` and `..` resolved.

use vstd::prelude::*;
use crate::text::chars_of;
use crate::text::join;
use crate::text::joined;
use crate::text::lines_view;
use crate::text::string_of;
use crate::text::strings_view;

verus! {

/// `path` without its leading slashes.
pub open spec fn trimmed(path: Seq<char>) -> Seq<char>
    decreases path.len(),
{
    if path.len() > 0 && path[0] == '/' {
        trimmed(path.drop_first())
    } else {
        path
    }
}

/// The pieces of `path` between its slashes. A path without a slash is one
/// piece; two slashes in a row, or a slash at either end, give an empty piece.
pub open spec fn pieces(path: Seq<char>) -> Seq<Seq<char>>
    decreases path.len(),
{
    if path.len() == 0 {
        seq![Seq::empty()]
    } else {
        let before = pieces(path.drop_last());
        if path.last() == '/' {
            before.push(Seq::empty())
        } else {
            before.drop_last().push(before.last().push(path.last()))
        }
    }
}

/// The piece that names the parent directory.
pub open spec fn parent_piece() -> Seq<char> {
    seq!['.', '.']
}

/// The piece that names the current directory.
pub open spec fn current_piece() -> Seq<char> {
    seq!['.']
}

/// One step of resolving: `..` drops the last component, and fails where there
/// is none; `.` changes nothing; an empty piece is kept only if `keep_empty`;
/// any other piece becomes the last component.
pub open spec fn step(stack: Seq<Seq<char>>, piece: Seq<char>, keep_empty: bool) -> Option<
    Seq<Seq<char>>,
> {
    if piece == parent_piece() {
        if stack.len() > 0 {
            Some(stack.drop_last())
        } else {
            None
        }
    } else if piece == current_piece() || (piece.len() == 0 && !keep_empty) {
        Some(stack)
    } else {
        Some(stack.push(piece))
    }
}

/// The components left after resolving all pieces in order, or `None` where a
/// `..` has no component to drop.
pub open spec fn resolved(parts: Seq<Seq<char>>, keep_empty: bool) -> Option<Seq<Seq<char>>>
    decreases parts.len(),
{
    if parts.len() == 0 {
        Some(Seq::empty())
    } else {
        match resolved(parts.drop_last(), keep_empty) {
            Some(stack) => step(stack, parts.last(), keep_empty),
            None => None,
        }
    }
}

/// The path that `right` names when it is read from `left`: `right` itself if
/// it starts with a slash, else `left`, a slash and `right`.
pub open spec fn combined(left: Seq<char>, right: Seq<char>) -> Seq<char> {
    if right.len() > 0 && right[0] == '/' {
        right
    } else {
        left + seq!['/'] + right
    }
}

/// The index of the first character of `chars` that is no slash.
fn skip_slashes(chars: &Vec<char>) -> (from: usize)
    ensures
        from <= chars.len(),
        chars@.skip(from as int) == trimmed(chars@),
{
    let mut from: usize = 0;
    proof {
        assert(chars@.skip(0) == chars@);
    }
    while from < chars.len() && chars[from] == '/'
        invariant
            from <= chars.len(),
            trimmed(chars@.skip(from as int)) == trimmed(chars@),
        decreases chars.len() - from,
    {
        proof {
            assert(chars@.skip(from as int).drop_first() == chars@.skip(from + 1));
        }
        from += 1;
    }
    from
}

/// Splits the characters from index `from` on at the slashes.
fn split_pieces(chars: &Vec<char>, from: usize) -> (parts: Vec<Vec<char>>)
    requires
        from <= chars.len(),
    ensures
        lines_view(parts@) == pieces(chars@.skip(from as int)),
{
    let mut parts: Vec<Vec<char>> = Vec::new();
    let mut piece: Vec<char> = Vec::new();
    let mut i: usize = from;
    proof {
        assert(chars@.subrange(from as int, from as int) == Seq::<char>::empty());
        assert(lines_view(parts@).push(piece@) == pieces(Seq::<char>::empty()));
    }
    while i < chars.len()
        invariant
            from <= i <= chars.len(),
            lines_view(parts@).push(piece@) == pieces(chars@.subrange(from as int, i as int)),
        decreases chars.len() - i,
    {
        let c = chars[i];
        proof {
            let longer = chars@.subrange(from as int, i + 1);
            assert(longer.drop_last() == chars@.subrange(from as int, i as int));
            assert(longer.last() == c);
            let before = lines_view(parts@).push(piece@);
            assert(before.drop_last() == lines_view(parts@));
            assert(before.last() == piece@);
        }
        if c == '/' {
            let ghost before = lines_view(parts@).push(piece@);
            parts.push(piece);
            piece = Vec::new();
            proof {
                assert(lines_view(parts@) == before);
            }
        } else {
            piece.push(c);
        }
        i += 1;
    }
    let ghost before = lines_view(parts@).push(piece@);
    parts.push(piece);
    proof {
        assert(lines_view(parts@) == before);
        assert(chars@.subrange(from as int, chars.len() as int) == chars@.skip(from as int));
    }
    parts
}

/// Whether `piece` is `..`.
fn is_parent(piece: &Vec<char>) -> (r: bool)
    ensures
        r == (piece@ == parent_piece()),
{
    let r = piece.len() == 2 && piece[0] == '.' && piece[1] == '.';
    proof {
        if r {
            assert(piece@ =~= parent_piece());
        }
    }
    r
}

/// Whether `piece` is `.`.
fn is_current(piece: &Vec<char>) -> (r: bool)
    ensures
        r == (piece@ == current_piece()),
{
    let r = piece.len() == 1 && piece[0] == '.';
    proof {
        if r {
            assert(piece@ =~= current_piece());
        }
    }
    r
}

/// Resolves the pieces in order.
fn resolve_pieces(parts: &Vec<Vec<char>>, keep_empty: bool) -> (r: Option<Vec<String>>)
    ensures
        match r {
            Some(stack) => resolved(lines_view(parts@), keep_empty) == Some(strings_view(stack@)),
            None => resolved(lines_view(parts@), keep_empty) is None,
        },
{
    let ghost all = lines_view(parts@);
    let mut stack: Vec<String> = Vec::new();
    let mut i: usize = 0;
    proof {
        assert(all.take(0) == Seq::<Seq<char>>::empty());
        assert(strings_view(stack@) == Seq::<Seq<char>>::empty());
    }
    while i < parts.len()
        invariant
            i <= parts.len(),
            all == lines_view(parts@),
            resolved(all.take(i as int), keep_empty) == Some(strings_view(stack@)),
        decreases parts.len() - i,
    {
        let piece = &parts[i];
        let ghost before = strings_view(stack@);
        proof {
            assert(all.take(i + 1).drop_last() == all.take(i as int));
            assert(all.take(i + 1).last() == piece@);
        }
        if is_parent(piece) {
            if stack.len() == 0 {
                proof {
                    lemma_resolved_fails(all, i + 1, keep_empty);
                }
                return None;
            }
            stack.pop();
            proof {
                assert(strings_view(stack@) == before.drop_last());
            }
        } else if is_current(piece) || (piece.len() == 0 && !keep_empty) {
        } else {
            stack.push(string_of(piece));
            proof {
                assert(strings_view(stack@) == before.push(piece@));
            }
        }
        i += 1;
    }
    proof {
        assert(all.take(parts.len() as int) == all);
    }
    Some(stack)
}

/// Once a prefix of the pieces fails to resolve, so does the whole.
proof fn lemma_resolved_fails(parts: Seq<Seq<char>>, n: int, keep_empty: bool)
    requires
        0 <= n <= parts.len(),
        resolved(parts.take(n), keep_empty) is None,
    ensures
        resolved(parts, keep_empty) is None,
    decreases parts.len() - n,
{
    if n < parts.len() {
        assert(parts.take(n + 1).drop_last() == parts.take(n));
        lemma_resolved_fails(parts, n + 1, keep_empty);
    } else {
        assert(parts.take(n) == parts);
    }
}

/// Resolves a program path to the components of a path relative to the
/// project root.
///
/// Leading slashes are dropped. Of the pieces between the remaining slashes,
/// `.` and empty pieces are skipped, `..` removes the component before it, and
/// every other piece is a component. The result is `None` exactly where a `..`
/// has no component left to remove.
pub fn resolve_path(path: &str) -> (r: Option<Vec<String>>)
    ensures
        match r {
            Some(components) => resolved(pieces(trimmed(path@)), false) == Some(
                strings_view(components@),
            ),
            None => resolved(pieces(trimmed(path@)), false) is None,
        },
{
    let chars = chars_of(path);
    let from = skip_slashes(&chars);
    let parts = split_pieces(&chars, from);
    resolve_pieces(&parts, false)
}

/// The components of the path that `right` names when it is read from
/// `left`, where it resolves.
pub open spec fn path_components(left: Seq<char>, right: Seq<char>) -> Seq<Seq<char>> {
    resolved(pieces(trimmed(combined(left, right))), true).unwrap()
}

/// Whether `right`, read from `left`, may be concatenated: whether the
/// combined path, where it resolves at all, resolves to at least one
/// component. A combined path such as `a/..`, in which every component is
/// taken back, does not.
pub open spec fn names_a_path(left: Seq<char>, right: Seq<char>) -> bool {
    resolved(pieces(trimmed(combined(left, right))), true) matches Some(stack) ==> stack.len() > 0
}

/// Resolves the path that `right` names when it is read from `left`.
fn combined_components(left: &str, right: &str) -> (r: Option<Vec<String>>)
    ensures
        match r {
            Some(stack) => resolved(pieces(trimmed(combined(left@, right@))), true) == Some(
                strings_view(stack@),
            ),
            None => resolved(pieces(trimmed(combined(left@, right@))), true) is None,
        },
{
    let mut tail = chars_of(right);
    let chars = if tail.len() > 0 && tail[0] == '/' {
        tail
    } else {
        let mut all = chars_of(left);
        all.push('/');
        all.append(&mut tail);
        all
    };
    assert(chars@ == combined(left@, right@));
    let from = skip_slashes(&chars);
    let parts = split_pieces(&chars, from);
    resolve_pieces(&parts, true)
}

/// Whether [`concat_path`] may be called on `left` and `right`.
pub fn can_concat_path(left: &str, right: &str) -> (r: bool)
    ensures
        r == names_a_path(left@, right@),
{
    match combined_components(left, right) {
        Some(stack) => stack.len() > 0,
        None => true,
    }
}

/// Concatenates a program path to a new program path: `right` read from
/// `left`, or `right` alone if it starts with a slash.
///
/// Leading slashes of the combined path are dropped. Of the pieces between
/// the remaining slashes, `.` is skipped, `..` removes the component before
/// it, and every other piece, an empty one too, is a component. The result is
/// the components joined by slashes, or `None` where a `..` has no component
/// left to remove. Since an empty piece is a component, the result may start
/// or end with a slash or hold two in a row.
///
/// A combined path that resolves to no component at all is not a program
/// path and may not be passed; [`can_concat_path`] tells.
pub fn concat_path(left: &str, right: &str) -> (r: Option<String>)
    requires
        names_a_path(left@, right@),
    ensures
        match r {
            Some(path) => resolved(pieces(trimmed(combined(left@, right@))), true) == Some(
                path_components(left@, right@),
            ) && path@ == joined(path_components(left@, right@), '/'),
            None => resolved(pieces(trimmed(combined(left@, right@))), true) is None,
        },
{
    match combined_components(left, right) {
        Some(stack) => Some(join(&stack, '/')),
        None => None,
    }
}

} // verus!
