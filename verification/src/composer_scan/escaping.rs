//! What [`escape_token`](super::tokens::escape_token) promises the scanner:
//! an escaped path after an `@` is read back as one token, and a path with
//! nothing to protect is written unchanged.

use crate::composer_scan::tokens::{escaped, needs_escape, token_end_of, token_stop, AT, BACKSLASH};
use crate::text::{lemma_ws_len_suffix, ws_len};
use vstd::prelude::*;
use vstd::utf8::{is_continuation_byte, length_of_first_scalar, pop_first_scalar, valid_first_scalar, valid_utf8};

verus! {

/// Whitespace is read from a character's own bytes: at a place where `l`
/// holds the first character of `p`, `l` and `p` agree on it, and a
/// whitespace character is the whole of that character.
proof fn lemma_ws_len_window(l: Seq<u8>, q: int, p: Seq<u8>)
    requires
        p.len() > 0,
        valid_first_scalar(p),
        0 <= q,
        q + length_of_first_scalar(p) <= l.len(),
        forall|k: int| 0 <= k < length_of_first_scalar(p) ==> l[q + k] == p[k],
    ensures
        ws_len(l, q) == ws_len(p, 0),
        ws_len(p, 0) > 0 ==> ws_len(p, 0) == length_of_first_scalar(p),
{
    let w = length_of_first_scalar(p);
    assert(l[q] == p[0]);
    if w >= 2 {
        assert(l[q + 1] == p[1]);
    }
    if w >= 3 {
        assert(l[q + 2] == p[2]);
    }
}

/// The token reading an escaped character steps over it whole, and a
/// plain character byte by byte, so reading `escaped(p)` ends where the
/// escaped text does.
proof fn lemma_token_stop_escaped(l: Seq<u8>, q: int, p: Seq<u8>, rest: Seq<u8>)
    requires
        valid_utf8(p),
        0 <= q <= l.len(),
        l.subrange(q, l.len() as int) == escaped(p) + rest,
        rest.len() == 0 || ws_len(rest, 0) > 0,
    ensures
        token_stop(l, q) == q + escaped(p).len(),
    decreases p.len(),
{
    let s = l.subrange(q, l.len() as int);
    if p.len() == 0 {
        assert(escaped(p) =~= Seq::<u8>::empty());
        assert(s =~= rest);
        if rest.len() > 0 {
            lemma_ws_len_suffix(l, q, 0);
            assert(l[q] == rest[0]);
        }
    } else {
        let w = length_of_first_scalar(p);
        let c = p.subrange(0, w);
        let tail = p.subrange(w, p.len() as int);
        assert(tail == pop_first_scalar(p));
        let e_tail = escaped(tail);
        if needs_escape(p) {
            assert(escaped(p) == seq![BACKSLASH] + c + e_tail);
            assert forall|k: int| 0 <= k < w implies l[q + 1 + k] == p[k] by {
                assert(l[q + 1 + k] == s[1 + k]);
                assert(s[1 + k] == (seq![BACKSLASH] + c + e_tail + rest)[1 + k]);
            }
            assert(l[q] == s[0]);
            lemma_ws_len_window(l, q + 1, p);
            let next = q + 1 + w;
            if p[0] == BACKSLASH {
                assert(w == 1);
                assert(ws_len(l, q + 1) == 0);
            } else {
                assert(ws_len(p, 0) > 0);
                assert(ws_len(l, q + 1) == w);
            }
            assert(token_stop(l, q) == token_stop(l, next));
            assert(l.subrange(next, l.len() as int) =~= e_tail + rest) by {
                assert(s.subrange(1 + w, s.len() as int) =~= e_tail + rest);
            }
            lemma_token_stop_escaped(l, next, tail, rest);
        } else {
            assert(escaped(p) == Seq::<u8>::empty() + c + e_tail);
            assert(escaped(p) =~= c + e_tail);
            assert forall|k: int| 0 <= k < w implies l[q + k] == p[k] by {
                assert(l[q + k] == s[k]);
                assert(s[k] == (c + e_tail + rest)[k]);
            }
            lemma_ws_len_window(l, q, p);
            // The continuation bytes of a character are neither a
            // backslash nor the start of whitespace.
            assert forall|k: int| 1 <= k < w implies #[trigger] l[q + k] != BACKSLASH && ws_len(l, q + k)
                == 0 by {
                assert(is_continuation_byte(p[k]));
            }
            assert(token_stop(l, q) == token_stop(l, q + 1));
            if w >= 2 {
                assert(l[q + 1] != BACKSLASH && ws_len(l, q + 1) == 0);
                assert(token_stop(l, q + 1) == token_stop(l, q + 2));
            }
            if w >= 3 {
                assert(l[q + 2] != BACKSLASH && ws_len(l, q + 2) == 0);
                assert(token_stop(l, q + 2) == token_stop(l, q + 3));
            }
            if w >= 4 {
                assert(l[q + 3] != BACKSLASH && ws_len(l, q + 3) == 0);
                assert(token_stop(l, q + 3) == token_stop(l, q + 4));
            }
            assert(token_stop(l, q) == token_stop(l, q + w));
            let next = q + w;
            assert(l.subrange(next, l.len() as int) =~= e_tail + rest) by {
                assert(s.subrange(w, s.len() as int) =~= e_tail + rest);
            }
            lemma_token_stop_escaped(l, next, tail, rest);
        }
    }
}

/// A path written by `escape_token` after an `@` (or a `/`) is read back
/// as one token: the token runs to the end of the escaped path, whatever
/// spaces and backslashes the path holds, when what follows is whitespace
/// or the end of the line.
pub proof fn lemma_escaped_path_is_one_token(before: Seq<u8>, path: Seq<u8>, after: Seq<u8>)
    requires
        valid_utf8(path),
        after.len() == 0 || ws_len(after, 0) > 0,
    ensures
        token_end_of(before + seq![AT] + escaped(path) + after, before.len() as int) == before.len() + 1
            + escaped(path).len(),
{
    let l = before + seq![AT] + escaped(path) + after;
    let q = before.len() + 1int;
    assert(l.subrange(q, l.len() as int) =~= escaped(path) + after);
    lemma_token_stop_escaped(l, q, path, after);
}

/// The byte at `i` is neither a backslash nor the start of whitespace.
pub open spec fn plain_at(p: Seq<u8>, i: int) -> bool {
    p[i] != BACKSLASH && ws_len(p, i) == 0
}

/// A path with no backslash and no whitespace is escaped to itself.
pub proof fn lemma_ordinary_path_unescaped(path: Seq<u8>)
    requires
        valid_utf8(path),
        forall|i: int| 0 <= i < path.len() ==> #[trigger] plain_at(path, i),
    ensures
        escaped(path) == path,
    decreases path.len(),
{
    if path.len() > 0 {
        let w = length_of_first_scalar(path);
        assert(valid_first_scalar(path));
        assert(1 <= w <= path.len());
        let tail = path.subrange(w, path.len() as int);
        assert(tail == pop_first_scalar(path));
        assert(plain_at(path, 0));
        assert forall|i: int| 0 <= i < tail.len() implies #[trigger] plain_at(tail, i) by {
            lemma_ws_len_suffix(path, w, i);
            assert(plain_at(path, w + i));
            assert(tail[i] == path[w + i]);
        }
        lemma_ordinary_path_unescaped(tail);
        assert(escaped(path) =~= Seq::<u8>::empty() + path.subrange(0, w) + tail);
        assert(path.subrange(0, w) + tail =~= path);
    }
}

} // verus!
