use vstd::prelude::*;
use vstd::slice::slice_subrange;

verus! {

/// Relies on `str::chars` collected into a `Vec` (std): the characters of the
/// string, in order.
#[verifier::external_body]
pub(crate) fn chars_of(s: &str) -> (r: Vec<char>)
    ensures
        r@ == s@,
{
    s.chars().collect()
}

/// Relies on `String: FromIterator<char>` (std): the string made of these
/// characters, in order.
#[verifier::external_body]
pub(crate) fn string_of(cs: &[char]) -> (r: String)
    ensures
        r@ == cs@,
{
    cs.iter().collect()
}

/// The characters `s[from..to]` as a string.
pub(crate) fn substring(s: &Vec<char>, from: usize, to: usize) -> (r: String)
    requires
        from <= to <= s@.len(),
    ensures
        r@ == s@.subrange(from as int, to as int),
{
    let slice = slice_subrange(s.as_slice(), from, to);
    string_of(slice)
}

/// The directory part of a path: everything up to and including its last `/`,
/// or nothing if it has none.
pub open spec fn parent_dir(p: Seq<char>) -> Seq<char>
    decreases p.len(),
{
    if p.len() == 0 {
        Seq::empty()
    } else if p.last() == '/' {
        p
    } else {
        parent_dir(p.drop_last())
    }
}

/// The file that holds module `name`, beside the file at `current`.
pub open spec fn sibling_path(current: Seq<char>, name: Seq<char>) -> Seq<char> {
    parent_dir(current) + name + seq!['.', 'r', 'k']
}

proof fn lemma_parent_dir_prefix(p: Seq<char>, n: int)
    requires
        0 <= n <= p.len(),
        forall|i: int| n <= i < p.len() ==> p[i] != '/',
    ensures
        parent_dir(p) == parent_dir(p.subrange(0, n)),
    decreases p.len() - n,
{
    if n < p.len() {
        assert(p.drop_last() =~= p.subrange(0, p.len() - 1));
        lemma_parent_dir_prefix(p.drop_last(), n);
        assert(p.drop_last().subrange(0, n) =~= p.subrange(0, n));
    } else {
        assert(p.subrange(0, n) =~= p);
    }
}

/// The path of module `name`'s file, beside the file at `current`.
pub fn sibling_file_path(current: &str, name: &str) -> (r: String)
    ensures
        r@ == sibling_path(current@, name@),
{
    let cs = chars_of(current);
    let mut n: usize = cs.len();
    while n > 0 && cs[n - 1] != '/'
        invariant
            n <= cs@.len(),
            forall|i: int| n <= i < cs@.len() ==> cs@[i] != '/',
        decreases n,
    {
        n = n - 1;
    }
    proof {
        lemma_parent_dir_prefix(cs@, n as int);
        if n > 0 {
            assert(cs@.subrange(0, n as int).last() == '/');
        } else {
            assert(cs@.subrange(0, 0) =~= Seq::<char>::empty());
        }
    }
    let dir = substring(&cs, 0, n);
    let with_name = dir.concat(name);
    let r = with_name.concat(".rk");
    proof {
        reveal_strlit(".rk");
        assert(".rk"@ =~= seq!['.', 'r', 'k']);
    }
    r
}

} // verus!
