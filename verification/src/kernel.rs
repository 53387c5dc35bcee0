//! The kernel cache and loader: a stable 64-bit hash of generated kernel
//! source, a unique entry-point name derived from the hash, the textual
//! renaming of the `kernel` entry point, and a process-wide memo table from
//! source hash to compiled kernel handle.
//!
//! The compilation itself (source to PTX, module registration) is the GPU
//! driver's work and happens outside this crate; the cache stores the
//! resulting handles as opaque identifiers.

use crate::expr::{digit_char, push_char, spec_nat_text};
use std::collections::HashMap;
use vstd::prelude::*;
use vstd::std_specs::iter::IteratorSpec;
use vstd::string::StringExecFns;

verus! {

broadcast use vstd::std_specs::hash::group_hash_axioms;

pub const FNV_OFFSET: u64 = 0xcbf29ce484222325;

pub const FNV_PRIME: u64 = 0x100000001b3;

/// 64-bit FNV-1a over the characters of the source text, starting from
/// state `h`. A pure function of the text alone, so equal sources always
/// collide into the same cache entry.
pub open spec fn source_hash_from(s: Seq<char>, h: u64) -> u64
    decreases s.len(),
{
    if s.len() == 0 {
        h
    } else {
        source_hash_from(
            s.subrange(1, s.len() as int),
            ((((h ^ (s[0] as u64)) as int) * (FNV_PRIME as int)) % 0x1_0000_0000_0000_0000) as u64,
        )
    }
}

pub open spec fn source_hash(s: Seq<char>) -> u64 {
    source_hash_from(s, FNV_OFFSET)
}

/// The stable hash of the given source text.
pub fn stable_hash(chars: &Vec<char>) -> (r: u64)
    ensures
        r == source_hash(chars@),
{
    let n = chars.len();
    let mut h: u64 = FNV_OFFSET;
    let mut i: usize = 0;
    proof {
        assert(chars@.subrange(0, n as int) =~= chars@);
    }
    while i < n
        invariant
            0 <= i <= n,
            n == chars@.len(),
            source_hash_from(chars@.subrange(i as int, n as int), h) == source_hash(chars@),
        decreases n - i,
    {
        proof {
            assert(chars@.subrange(i as int, n as int)[0] == chars@[i as int]);
            assert(chars@.subrange(i as int, n as int).subrange(1, (n - i) as int)
                =~= chars@.subrange(i as int + 1, n as int));
        }
        let x: u64 = h ^ (chars[i] as u64);
        let prod: u128 = (x as u128) * (FNV_PRIME as u128);
        h = (prod % 0x1_0000_0000_0000_0000u128) as u64;
        i = i + 1;
    }
    proof {
        assert(chars@.subrange(n as int, n as int) =~= Seq::<char>::empty());
    }
    h
}

/// The unique entry-point name derived from a source hash.
pub open spec fn spec_kernel_name(h: u64) -> Seq<char> {
    "kernel_"@ + spec_nat_text(h as int)
}

/// Append the decimal text of `n` as characters.
pub fn push_nat_chars(v: &mut Vec<char>, n: u64)
    ensures
        final(v)@ == old(v)@ + spec_nat_text(n as int),
    decreases n,
{
    if n < 10 {
        v.push(digit_char(n));
        proof {
            assert(final(v)@ =~= old(v)@ + spec_nat_text(n as int));
        }
    } else {
        push_nat_chars(v, n / 10);
        v.push(digit_char(n % 10));
        proof {
            assert(final(v)@ =~= old(v)@ + spec_nat_text(n as int));
        }
    }
}

/// `"kernel_<hash>"`: the renamed entry point, as characters.
pub fn kernel_name_chars(h: u64) -> (r: Vec<char>)
    ensures
        r@ == spec_kernel_name(h),
{
    let mut v: Vec<char> = Vec::new();
    v.push('k');
    v.push('e');
    v.push('r');
    v.push('n');
    v.push('e');
    v.push('l');
    v.push('_');
    proof {
        reveal_strlit("kernel_");
        assert(v@ =~= "kernel_"@);
    }
    push_nat_chars(&mut v, h);
    v
}

/// A `String` holding exactly the given characters.
pub fn string_of_chars(v: &Vec<char>) -> (r: String)
    ensures
        r@ == v@,
{
    let mut s = String::new();
    let mut i: usize = 0;
    while i < v.len()
        invariant
            0 <= i <= v@.len(),
            s@ == v@.subrange(0, i as int),
        decreases v@.len() - i,
    {
        push_char(&mut s, v[i]);
        proof {
            assert(v@.subrange(0, i as int).push(v@[i as int]) =~= v@.subrange(0, i as int + 1));
        }
        i = i + 1;
    }
    proof {
        assert(v@.subrange(0, v@.len() as int) =~= v@);
    }
    s
}

/// Collect the text's characters, one step of the iterator at a time.
fn chars_of(s: &str) -> (r: Vec<char>)
    ensures
        r@ == s@,
{
    let mut it = s.chars();
    let mut v: Vec<char> = Vec::new();
    proof {
        assert(vstd::string::spec_iter(s).remaining() == s@);
    }
    let mut done = false;
    while !done
        invariant
            it.obeys_prophetic_iter_laws(),
            it.decrease() is Some,
            !done ==> v@ + it.remaining() == s@,
            done ==> v@ == s@,
        decreases (if done {
            0int
        } else {
            1int
        }), it.decrease()->0,
    {
        match it.next() {
            Some(c) => {
                v.push(c);
                proof {
                    assert(v@ + it.remaining() =~= s@);
                }
            },
            None => {
                proof {
                    assert(v@ =~= v@ + it.remaining());
                }
                done = true;
            },
        }
    }
    v
}

/// Replace every occurrence of `pat` in `s` by `sub`, scanning left to
/// right; overlapping occurrences are consumed by the leftmost match.
pub open spec fn replace_text(s: Seq<char>, pat: Seq<char>, sub: Seq<char>) -> Seq<char>
    decreases s.len(),
{
    if pat.len() == 0 || s.len() < pat.len() {
        s
    } else if s.subrange(0, pat.len() as int) == pat {
        sub + replace_text(s.skip(pat.len() as int), pat, sub)
    } else {
        seq![s[0]] + replace_text(s.skip(1), pat, sub)
    }
}

fn match_at(s: &Vec<char>, i: usize, pat: &Vec<char>) -> (r: bool)
    requires
        i + pat@.len() <= s@.len(),
        i + pat@.len() <= usize::MAX,
    ensures
        r == (s@.subrange(i as int, i as int + pat@.len() as int) == pat@),
{
    let m = pat.len();
    let total = s.len();
    let mut j: usize = 0;
    while j < m
        invariant
            0 <= j <= m == pat@.len(),
            i + m <= s@.len(),
            total == s@.len(),
            forall|k: int| 0 <= k < j ==> s@[i + k] == pat@[k],
        decreases m - j,
    {
        if s[i + j] != pat[j] {
            proof {
                assert(s@.subrange(i as int, i as int + m as int)[j as int] != pat@[j as int]);
            }
            return false;
        }
        j = j + 1;
    }
    proof {
        assert(s@.subrange(i as int, i as int + m as int) =~= pat@);
    }
    true
}

/// The replacement, executably.
pub fn replace_chars(s: &Vec<char>, pat: &Vec<char>, sub: &Vec<char>) -> (r: Vec<char>)
    ensures
        r@ == replace_text(s@, pat@, sub@),
{
    let n = s.len();
    let m = pat.len();
    let mut out: Vec<char> = Vec::new();
    if m == 0 {
        let mut r: Vec<char> = Vec::new();
        let mut i: usize = 0;
        while i < n
            invariant
                0 <= i <= n == s@.len(),
                r@ =~= s@.subrange(0, i as int),
            decreases n - i,
        {
            r.push(s[i]);
            i = i + 1;
        }
        proof {
            assert(r@ =~= s@);
        }
        return r;
    }
    let mut i: usize = 0;
    proof {
        assert(s@.skip(0) =~= s@);
        assert(out@ + replace_text(s@.skip(0), pat@, sub@) =~= replace_text(s@, pat@, sub@));
    }
    while i < n
        invariant
            0 <= i <= n == s@.len(),
            m == pat@.len(),
            1 <= m,
            out@ + replace_text(s@.skip(i as int), pat@, sub@) == replace_text(s@, pat@, sub@),
        decreases n - i,
    {
        let ghost pre = out@;
        if m <= n - i && match_at(s, i, pat) {
            proof {
                assert(s@.skip(i as int).len() >= m);
                assert(s@.skip(i as int).subrange(0, m as int) =~= s@.subrange(
                    i as int,
                    i as int + m as int,
                ));
                assert(s@.skip(i as int).skip(m as int) =~= s@.skip(i as int + m as int));
            }
            let mut j: usize = 0;
            while j < sub.len()
                invariant
                    0 <= j <= sub@.len(),
                    out@ == pre + sub@.subrange(0, j as int),
                decreases sub@.len() - j,
            {
                out.push(sub[j]);
                proof {
                    assert(pre + sub@.subrange(0, j as int + 1) =~= (pre + sub@.subrange(
                        0,
                        j as int,
                    )).push(sub@[j as int]));
                }
                j = j + 1;
            }
            proof {
                assert(sub@.subrange(0, sub@.len() as int) =~= sub@);
                assert(out@ + replace_text(s@.skip(i as int + m as int), pat@, sub@) =~= pre + (sub@
                    + replace_text(s@.skip(i as int + m as int), pat@, sub@)));
            }
            i = i + m;
        } else {
            proof {
                let sk = s@.skip(i as int);
                if sk.len() >= m {
                    assert(sk.subrange(0, m as int) =~= s@.subrange(i as int, i as int + m as int));
                }
                assert(sk.skip(1) =~= s@.skip(i as int + 1));
            }
            out.push(s[i]);
            proof {
                assert(out@ + replace_text(s@.skip(i as int + 1), pat@, sub@) =~= pre + (seq![
                    s@[i as int],
                ] + replace_text(s@.skip(i as int + 1), pat@, sub@)));
            }
            i = i + 1;
        }
    }
    proof {
        assert(s@.skip(n as int) =~= Seq::<char>::empty());
        assert(out@ + Seq::<char>::empty() =~= out@);
        assert(replace_text(Seq::<char>::empty(), pat@, sub@) == Seq::<char>::empty());
    }
    out
}

/// What the loader prepares from a kernel source: its stable hash, the
/// unique entry-point name, and the source with every occurrence of the
/// literal identifier `kernel` renamed to that name.
pub struct KernelRequest {
    pub hash: u64,
    pub name: String,
    pub source: String,
}

/// The entry-point literal every template declares.
pub open spec fn entry_literal() -> Seq<char> {
    "kernel"@
}

fn entry_chars() -> (r: Vec<char>)
    ensures
        r@ == entry_literal(),
{
    let mut v: Vec<char> = Vec::new();
    v.push('k');
    v.push('e');
    v.push('r');
    v.push('n');
    v.push('e');
    v.push('l');
    proof {
        reveal_strlit("kernel");
        assert(v@ =~= "kernel"@);
    }
    v
}

/// Prepare a kernel source for compilation: hash the text, derive the
/// unique entry-point name `kernel_<hash>`, and rename every occurrence of
/// the literal identifier `kernel` to it.
pub fn prepare_kernel(code: &str) -> (r: KernelRequest)
    ensures
        r.hash == source_hash(code@),
        r.name@ == spec_kernel_name(source_hash(code@)),
        r.source@ == replace_text(code@, entry_literal(), spec_kernel_name(source_hash(code@))),
{
    let chars = chars_of(code);
    let hash = stable_hash(&chars);
    let name_chars = kernel_name_chars(hash);
    let pat = entry_chars();
    let renamed = replace_chars(&chars, &pat, &name_chars);
    KernelRequest {
        hash,
        name: string_of_chars(&name_chars),
        source: string_of_chars(&renamed),
    }
}

/// Process-wide memoization of compiled kernels: source hash to an opaque
/// handle chosen by the loader. Monotonic: entries are never removed, so a
/// hash always maps to the handle it was first registered with.
pub struct KernelCache {
    table: HashMap<u64, u64>,
}

impl KernelCache {
    pub closed spec fn entries(&self) -> Map<u64, u64> {
        self.table@
    }

    pub fn new() -> (r: Self)
        ensures
            r.entries() == Map::<u64, u64>::empty(),
    {
        KernelCache { table: HashMap::new() }
    }

    /// The cached handle for a source hash, if one was registered.
    pub fn lookup(&self, h: u64) -> (r: Option<u64>)
        ensures
            r == (if self.entries().contains_key(h) {
                Some(self.entries()[h])
            } else {
                None::<u64>
            }),
    {
        match self.table.get(&h) {
            Some(f) => Some(*f),
            None => None,
        }
    }

    /// Register the handle compiled for a source hash.
    pub fn register(&mut self, h: u64, f: u64)
        ensures
            final(self).entries() == old(self).entries().insert(h, f),
    {
        self.table.insert(h, f);
    }

    /// The handle to use for a prepared kernel: the cached one on a hit;
    /// on a miss, `fresh` (the handle the caller just compiled and loaded)
    /// is registered and returned. Equal source text therefore always
    /// yields the handle registered first.
    pub fn load(&mut self, h: u64, fresh: u64) -> (r: u64)
        ensures
            old(self).entries().contains_key(h) ==> r == old(self).entries()[h]
                && final(self).entries() == old(self).entries(),
            !old(self).entries().contains_key(h) ==> r == fresh
                && final(self).entries() == old(self).entries().insert(h, fresh),
            final(self).entries().contains_key(h) && final(self).entries()[h] == r,
    {
        match self.lookup(h) {
            Some(f) => f,
            None => {
                self.register(h, fresh);
                fresh
            },
        }
    }
}

/// Loading the same source twice returns the same handle: once a handle is
/// cached under a source's hash, a later load of any textually equal source
/// returns that handle unchanged, whatever was registered in between for
/// other hashes.
pub proof fn lemma_same_source_same_handle(c: Map<u64, u64>, s: Seq<char>, t: Seq<char>, f: u64)
    requires
        s == t,
        c.contains_key(source_hash(s)),
    ensures
        c[source_hash(t)] == c[source_hash(s)],
        forall|h2: u64, f2: u64|
            h2 != source_hash(s) ==> #[trigger] c.insert(h2, f2)[source_hash(t)] == c[source_hash(
                s,
            )],
{
}

/// The kernel cache is a function of source text alone: textually equal
/// sources hash alike, are renamed alike, and share one cache entry, while
/// any textual difference may (but need not) give a distinct entry.
pub proof fn lemma_cache_keyed_by_text(s: Seq<char>, t: Seq<char>)
    requires
        s == t,
    ensures
        source_hash(s) == source_hash(t),
        spec_kernel_name(source_hash(s)) == spec_kernel_name(source_hash(t)),
        replace_text(s, entry_literal(), spec_kernel_name(source_hash(s))) == replace_text(
            t,
            entry_literal(),
            spec_kernel_name(source_hash(t)),
        ),
{
}

} // verus!
