//! The decision piece of the self-updater: reading the version number out
//! of the address that the releases page redirects to. The requests
//! themselves are the surrounding program's business.
use crate::text::push_char;
use vstd::prelude::*;
use vstd::string::StrSliceExecFns;

verus! {

/// The characters after the last slash of `s`, or all of `s` when it has
/// none.
pub open spec fn after_last_slash(s: Seq<char>) -> Seq<char>
    decreases s.len(),
{
    if s.len() == 0 {
        s
    } else if s.last() == '/' {
        Seq::empty()
    } else {
        after_last_slash(s.drop_last()).push(s.last())
    }
}

/// `s` with every `v` removed, as replacing `v` by nothing leaves it.
pub open spec fn remove_v(s: Seq<char>) -> Seq<char>
    decreases s.len(),
{
    if s.len() == 0 {
        s
    } else if s.last() == 'v' {
        remove_v(s.drop_last())
    } else {
        remove_v(s.drop_last()).push(s.last())
    }
}

/// `after_last_slash` is the suffix that starts right after the last slash.
proof fn lemma_after_last_slash_at(s: Seq<char>, k: int)
    requires
        0 <= k <= s.len(),
        forall|j: int| k <= j < s.len() ==> s[j] != '/',
        k > 0 ==> s[k - 1] == '/',
    ensures
        after_last_slash(s) == s.skip(k),
    decreases s.len(),
{
    if s.len() == 0 {
        assert(s.skip(0) =~= s);
    } else if k == s.len() {
        assert(s.last() == '/');
        assert(s.skip(k) =~= Seq::<char>::empty());
    } else {
        assert(s.last() != '/');
        assert forall|j: int| k <= j < s.drop_last().len() implies s.drop_last()[j] != '/' by {
            assert(s[j] != '/');
        }
        if k > 0 {
            assert(s.drop_last()[k - 1] == s[k - 1]);
        }
        lemma_after_last_slash_at(s.drop_last(), k);
        assert(after_last_slash(s) =~= s.drop_last().skip(k).push(s.last()));
        assert(s.drop_last().skip(k).push(s.last()) =~= s.skip(k));
    }
}

/// Reads the version number out of a release address: the part after the
/// last slash, with every `v` removed.
pub fn extract_version(url: &str) -> (r: String)
    ensures
        r@ == remove_v(after_last_slash(url@)),
{
    let n: usize = url.unicode_len();
    let mut k: usize = n;
    while k > 0 && url.get_char(k - 1) != '/'
        invariant
            k <= n,
            n == url@.len(),
            forall|j: int| k <= j < n ==> url@[j] != '/',
        decreases k,
    {
        k = k - 1;
    }
    proof {
        lemma_after_last_slash_at(url@, k as int);
    }
    let mut r = String::new();
    let mut i: usize = k;
    while i < n
        invariant
            k <= i <= n,
            n == url@.len(),
            r@ == remove_v(url@.subrange(k as int, i as int)),
        decreases n - i,
    {
        let c = url.get_char(i);
        proof {
            assert(url@.subrange(k as int, i as int + 1).drop_last() =~= url@.subrange(
                k as int,
                i as int,
            ));
            assert(url@.subrange(k as int, i as int + 1).last() == url@[i as int]);
        }
        if c != 'v' {
            push_char(&mut r, c);
        }
        i = i + 1;
    }
    proof {
        assert(url@.subrange(k as int, n as int) =~= url@.skip(k as int));
    }
    r
}

} // verus!
