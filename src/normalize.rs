//! Canonical, forward-slash text for paths.
use vstd::prelude::*;

verus! {

/// The marker `\\?\` that opens an extended-length (verbatim) path.
pub open spec fn verbatim_marker() -> Seq<char> {
    seq!['\\', '\\', '?', '\\']
}

pub open spec fn starts_with_marker(s: Seq<char>) -> bool {
    s.len() >= 4 && s.subrange(0, 4) == verbatim_marker()
}

/// `s` without a leading verbatim marker.
pub open spec fn strip_marker(s: Seq<char>) -> Seq<char> {
    if starts_with_marker(s) {
        s.subrange(4, s.len() as int)
    } else {
        s
    }
}

pub open spec fn slash_of(c: char) -> char {
    if c == '\\' {
        '/'
    } else {
        c
    }
}

/// `s` with every backslash turned into a forward slash.
pub open spec fn forward_slashes(s: Seq<char>) -> Seq<char> {
    s.map_values(|c: char| slash_of(c))
}

/// The canonical text of a path: marker stripped, then separators turned.
pub open spec fn normalized(s: Seq<char>) -> Seq<char> {
    forward_slashes(strip_marker(s))
}

pub open spec fn has_backslash(s: Seq<char>) -> bool {
    exists|i: int| 0 <= i < s.len() && s[i] == '\\'
}

proof fn lemma_forward_slashes_push(s: Seq<char>, c: char)
    ensures
        forward_slashes(s.push(c)) =~= forward_slashes(s).push(slash_of(c)),
{
}

/// Renders a path's text in canonical form: a leading `\\?\` is removed and
/// every backslash becomes `/`.
pub fn normalize_path(path: &str) -> (r: String)
    ensures
        r@ == normalized(path@),
{
    let n = path.unicode_len();
    let mut start: usize = 0;
    if n >= 4 && path.get_char(0) == '\\' && path.get_char(1) == '\\' && path.get_char(2) == '?'
        && path.get_char(3) == '\\' {
        start = 4;
        assert(path@.subrange(0, 4) =~= verbatim_marker());
    } else {
        assert(!starts_with_marker(path@)) by {
            if starts_with_marker(path@) {
                assert(path@.subrange(0, 4)[0] == path@[0]);
                assert(path@.subrange(0, 4)[1] == path@[1]);
                assert(path@.subrange(0, 4)[2] == path@[2]);
                assert(path@.subrange(0, 4)[3] == path@[3]);
            }
        }
    }
    let ghost src = path@.subrange(start as int, n as int);
    assert(src == strip_marker(path@));
    let mut out = String::new();
    let mut seg: usize = start;
    let mut i: usize = start;
    while i < n
        invariant
            start <= seg <= i <= n,
            n == path@.len(),
            out@ + path@.subrange(seg as int, i as int) =~= forward_slashes(
                path@.subrange(start as int, i as int),
            ),
            forall|k: int| seg <= k < i ==> path@[k] != '\\',
        decreases n - i,
    {
        let c = path.get_char(i);
        let ghost before = path@.subrange(start as int, i as int);
        proof {
            assert(path@.subrange(start as int, (i + 1) as int) =~= before.push(c));
            lemma_forward_slashes_push(before, c);
            assert(path@.subrange(seg as int, (i + 1) as int) =~= path@.subrange(
                seg as int,
                i as int,
            ).push(c));
        }
        if c == '\\' {
            let ghost head = out@ + path@.subrange(seg as int, i as int);
            out.append(path.substring_char(seg, i));
            assert(out@ =~= head);
            out.append("/");
            proof {
                reveal_strlit("/");
            }
            assert(out@ =~= head.push('/'));
            seg = i + 1;
            assert(path@.subrange(seg as int, (i + 1) as int) =~= Seq::<char>::empty());
            assert(out@ + path@.subrange(seg as int, (i + 1) as int) =~= out@);
        } else {
            assert(out@ + path@.subrange(seg as int, i as int).push(c) =~= (out@
                + path@.subrange(seg as int, i as int)).push(c));
        }
        i += 1;
    }
    out.append(path.substring_char(seg, n));
    out
}

/// `//?/`: what the verbatim marker becomes once its backslashes are turned.
pub open spec fn slashed_marker() -> Seq<char> {
    seq!['/', '/', '?', '/']
}

proof fn lemma_forward_slashes_plain(s: Seq<char>)
    requires
        !has_backslash(s),
    ensures
        forward_slashes(s) == s,
{
    assert(forward_slashes(s) =~= s);
}

proof fn lemma_normalized_plain(s: Seq<char>)
    ensures
        !has_backslash(normalized(s)),
{
    let r = normalized(s);
    assert forall|i: int| 0 <= i < r.len() implies r[i] != '\\' by {
        assert(r[i] == slash_of(strip_marker(s)[i]));
    }
}

/// Normalizing is idempotent: canonical text holds no backslash, hence no
/// marker, and a second pass returns it unchanged.
pub proof fn lemma_normalize_idempotent(s: Seq<char>)
    ensures
        normalized(normalized(s)) == normalized(s),
        !has_backslash(normalized(s)),
{
    let r = normalized(s);
    lemma_normalized_plain(s);
    if starts_with_marker(r) {
        assert(r.subrange(0, 4)[0] == r[0]);
    }
    lemma_forward_slashes_plain(r);
}

/// Backslash separators and a leading verbatim marker are platform artifacts:
/// a path written with them normalizes to the same forward-slash text as the
/// same path written with `/` alone. This holds for every path whose slash
/// form does not itself open with `//?/` (the form a marker takes once turned).
pub proof fn lemma_artifacts_removed(s: Seq<char>)
    requires
        !(forward_slashes(s).len() >= 4 && forward_slashes(s).subrange(0, 4) == slashed_marker()),
    ensures
        normalized(s) == forward_slashes(s),
        normalized(verbatim_marker() + s) == forward_slashes(s),
        !has_backslash(forward_slashes(s)),
{
    if starts_with_marker(s) {
        let f = forward_slashes(s);
        assert(f.subrange(0, 4) =~= slashed_marker()) by {
            assert(s.subrange(0, 4)[0] == s[0]);
            assert(s.subrange(0, 4)[1] == s[1]);
            assert(s.subrange(0, 4)[2] == s[2]);
            assert(s.subrange(0, 4)[3] == s[3]);
        }
    }
    let m = verbatim_marker() + s;
    assert(m.subrange(0, 4) =~= verbatim_marker());
    assert(m.subrange(4, m.len() as int) =~= s);
    lemma_normalized_plain(s);
}

} // verus!
