use vstd::prelude::*;

verus! {

// ---------------------------------------------------------------------------
// Path presentation: abbreviating the home directory to `~`.
//
// A pure display utility: nothing it produces is stored or fed back
// into the registry. The caller supplies the home directory's path;
// with an empty one, the tilde is simply prefixed, as matching an
// empty prefix always succeeds.
// ---------------------------------------------------------------------------

/// `p` with a leading occurrence of `home` replaced by `~`; `p`
/// unchanged when it does not start with `home`.
pub open spec fn spec_tilde(p: Seq<char>, home: Seq<char>) -> Seq<char> {
    if p.len() >= home.len() && p.subrange(0, home.len() as int) == home {
        "~"@ + p.skip(home.len() as int)
    } else {
        p
    }
}

/// Whether `p` starts with `pre`, character for character.
fn starts_with_exec(p: &str, pre: &str) -> (r: bool)
    ensures
        r == (p@.len() >= pre@.len() && p@.subrange(0, pre@.len() as int) == pre@),
{
    let n = p.unicode_len();
    let m = pre.unicode_len();
    if n < m {
        return false;
    }
    let mut i: usize = 0;
    while i < m
        invariant
            i <= m,
            m == pre@.len(),
            n == p@.len(),
            m <= n,
            forall|k: int| 0 <= k < i ==> p@[k] == pre@[k],
        decreases m - i,
    {
        if p.get_char(i) != pre.get_char(i) {
            proof {
                if p@.subrange(0, m as int) == pre@ {
                    assert(p@.subrange(0, m as int)[i as int] == p@[i as int]);
                }
            }
            return false;
        }
        i = i + 1;
    }
    proof {
        assert(p@.subrange(0, m as int) =~= pre@);
    }
    true
}

/// Display formatting that abbreviates the home directory to `~`.
pub trait Tilde: View<V = Seq<char>> {
    /// This path with a leading `home` shown as `~`.
    fn tilde_format(&self, home: &str) -> (r: String)
        ensures
            r@ == spec_tilde(self.view(), home@),
    ;
}

impl Tilde for String {
    fn tilde_format(&self, home: &str) -> (r: String) {
        tilde_format_str(self.as_str(), home)
    }
}

/// `path` with a leading `home` abbreviated to `~`.
pub fn tilde_format_str(path: &str, home: &str) -> (r: String)
    ensures
        r@ == spec_tilde(path@, home@),
{
    if starts_with_exec(path, home) {
        let n = path.unicode_len();
        let m = home.unicode_len();
        let rest = path.substring_char(m, n);
        let mut out = "~".to_owned();
        out.append(rest);
        proof {
            assert(out@ =~= "~"@ + path@.skip(home@.len() as int));
        }
        out
    } else {
        path.to_owned()
    }
}

} // verus!
