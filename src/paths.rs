//! Relative document paths, held as their components, and the naming rules
//! read from a component: its extension and whether it is hidden.
use vstd::prelude::*;

verus! {

/// A path relative to the scan root, as its sequence of components.
#[derive(Clone, Debug)]
pub struct RelPath {
    pub parts: Vec<String>,
}

impl View for RelPath {
    type V = Seq<Seq<char>>;

    open spec fn view(&self) -> Seq<Seq<char>> {
        self.parts@.map_values(|p: String| p@)
    }
}

impl RelPath {
    /// The empty path: the scan root itself.
    pub fn new() -> (r: RelPath)
        ensures
            r@ == Seq::<Seq<char>>::empty(),
    {
        let r = RelPath { parts: Vec::new() };
        assert(r@ =~= Seq::<Seq<char>>::empty());
        r
    }

    /// The path of the first `k` components.
    pub fn prefix(&self, k: usize) -> (r: RelPath)
        requires
            k <= self@.len(),
        ensures
            r@ == self@.subrange(0, k as int),
    {
        let mut parts: Vec<String> = Vec::new();
        let mut i: usize = 0;
        while i < k
            invariant
                i <= k <= self.parts@.len(),
                parts@.len() == i,
                forall|j: int| 0 <= j < i ==> (#[trigger] parts@[j])@ == self@[j],
            decreases k - i,
        {
            let c = self.parts[i].clone();
            assert(c@ == self@[i as int]);
            parts.push(c);
            i += 1;
        }
        assert(parts@.map_values(|p: String| p@) =~= self@.subrange(0, k as int));
        RelPath { parts }
    }

    /// A copy of this path.
    pub fn duplicate(&self) -> (r: RelPath)
        ensures
            r@ == self@,
    {
        let r = self.prefix(self.parts.len());
        assert(self@.subrange(0, self@.len() as int) =~= self@);
        r
    }
}

/// The text of a path: its components joined by `/`.
pub open spec fn path_text(p: Seq<Seq<char>>) -> Seq<char>
    decreases p.len(),
{
    if p.len() == 0 {
        seq![]
    } else if p.len() == 1 {
        p[0]
    } else {
        path_text(p.drop_last()) + seq!['/'] + p.last()
    }
}

impl RelPath {
    /// The path's text, components joined by `/`.
    pub fn to_text(&self) -> (r: String)
        ensures
            r@ == path_text(self@),
    {
        let mut out = String::new();
        let mut i: usize = 0;
        while i < self.parts.len()
            invariant
                i <= self@.len(),
                out@ == path_text(self@.subrange(0, i as int)),
            decreases self@.len() - i,
        {
            let ghost sub = self@.subrange(0, i + 1);
            assert(sub.drop_last() =~= self@.subrange(0, i as int));
            assert(sub.last() == self.parts@[i as int]@);
            if i > 0 {
                out.append("/");
                proof {
                    reveal_strlit("/");
                }
            } else {
                assert(sub =~= seq![sub.last()]);
            }
            out.append(self.parts[i].as_str());
            i += 1;
        }
        assert(self@.subrange(0, self@.len() as int) =~= self@);
        out
    }
}

/// Index of the last `.` in `s`, or -1 where there is none.
pub open spec fn last_dot(s: Seq<char>) -> int
    decreases s.len(),
{
    if s.len() == 0 {
        -1
    } else if s.last() == '.' {
        s.len() - 1
    } else {
        last_dot(s.drop_last())
    }
}

/// The extension of a file name: the text after its last `.`, where that dot
/// is not the name's first character; `..` has none.
pub open spec fn extension_of(name: Seq<char>) -> Option<Seq<char>> {
    if name == seq!['.', '.'] || last_dot(name) <= 0 {
        None
    } else {
        Some(name.subrange(last_dot(name) + 1, name.len() as int))
    }
}

/// The extension that marks a document.
pub open spec fn doc_extension() -> Seq<char> {
    seq!['m', 'd']
}

/// A hidden name starts with `.`.
pub open spec fn is_hidden_name(name: Seq<char>) -> bool {
    name.len() > 0 && name[0] == '.'
}

proof fn lemma_last_dot_prefix(s: Seq<char>, i: int)
    requires
        0 <= i <= s.len(),
        forall|k: int| i <= k < s.len() ==> s[k] != '.',
    ensures
        last_dot(s) == last_dot(s.subrange(0, i)),
    decreases s.len(),
{
    if s.len() > i {
        assert(s.drop_last().subrange(0, i) =~= s.subrange(0, i));
        lemma_last_dot_prefix(s.drop_last(), i);
    } else {
        assert(s.subrange(0, i) =~= s);
    }
}

/// Position of the last `.` in `name`.
fn find_last_dot(name: &str) -> (r: Option<usize>)
    ensures
        match r {
            None => last_dot(name@) == -1,
            Some(k) => last_dot(name@) == k as int && k < name@.len() && name@[k as int] == '.',
        },
{
    let n = name.unicode_len();
    let mut i: usize = n;
    while i > 0
        invariant
            i <= n,
            n == name@.len(),
            forall|k: int| i <= k < n ==> name@[k] != '.',
        decreases i,
    {
        if name.get_char(i - 1) == '.' {
            proof {
                lemma_last_dot_prefix(name@, i as int);
                assert(name@.subrange(0, i as int).last() == '.');
            }
            return Some(i - 1);
        }
        i -= 1;
    }
    proof {
        lemma_last_dot_prefix(name@, 0);
    }
    None
}

fn is_dot_dot(name: &str) -> (r: bool)
    ensures
        r == (name@ == seq!['.', '.']),
{
    let n = name.unicode_len();
    if n == 2 && name.get_char(0) == '.' && name.get_char(1) == '.' {
        assert(name@ =~= seq!['.', '.']);
        true
    } else {
        assert(name@ != seq!['.', '.'] || name@[0] == '.');
        false
    }
}

/// Whether the file name has an extension at all.
pub fn has_extension(name: &str) -> (r: bool)
    ensures
        r == extension_of(name@) is Some,
{
    if is_dot_dot(name) {
        return false;
    }
    match find_last_dot(name) {
        None => false,
        Some(k) => k > 0,
    }
}

/// Whether the file name's extension is exactly `md` (case-sensitive).
pub fn has_doc_extension(name: &str) -> (r: bool)
    ensures
        r == (extension_of(name@) == Some(doc_extension())),
{
    if is_dot_dot(name) {
        return false;
    }
    let n = name.unicode_len();
    match find_last_dot(name) {
        None => false,
        Some(k) => {
            if k == 0 {
                return false;
            }
            if n - k == 3 && name.get_char(k + 1) == 'm' && name.get_char(k + 2) == 'd' {
                assert(name@.subrange(k + 1, n as int) =~= doc_extension());
                true
            } else {
                assert(name@.subrange(k + 1, n as int) != doc_extension()) by {
                    let e = name@.subrange(k + 1, n as int);
                    if e == doc_extension() {
                        assert(e.len() == 2);
                        assert(e[0] == name@[k + 1]);
                        assert(e[1] == name@[k + 2]);
                    }
                }
                false
            }
        },
    }
}

/// Whether the name starts with `.`.
pub fn is_hidden(name: &str) -> (r: bool)
    ensures
        r == is_hidden_name(name@),
{
    name.unicode_len() > 0 && name.get_char(0) == '.'
}

} // verus!
