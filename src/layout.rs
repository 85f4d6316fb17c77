//! The data directory: which files are log files, in what order they are
//! replayed, and which engine the directory belongs to.
//!
//! A log file is named `<N>.log`, where `<N>` is its generation in decimal;
//! leading zeros are read as decimal too. The store names the files it
//! creates without them. An `engine` file names the engine that created the
//! directory.
use vstd::prelude::*;
use vstd::utf8::encode_utf8;

use crate::codec::{parse_number, read_number};
use crate::error::KvsError;

verus! {

/// The generation that a file name gives, if it is the name of a log file.
pub open spec fn log_name_generation(b: Seq<u8>) -> Option<u32> {
    match parse_number(b, 0, 46) {
        Some((v, e)) => if e + 3 == b.len() && b[e] == 108 && b[e + 1] == 111 && b[e + 2] == 103
            && v <= u32::MAX {
            Some(v as u32)
        } else {
            None
        },
        None => None,
    }
}

/// The generation named by `name`, if it names a log file.
pub fn log_generation(name: &str) -> (r: Option<u32>)
    ensures
        r == log_name_generation(encode_utf8(name@)),
{
    let b = name.as_bytes();
    let n = b.len();
    match read_number(b, 0, 46, 4294967295usize) {
        Some((v, e)) => {
            if e <= n && n - e == 3 && b[e] == 108 && b[e + 1] == 111 && b[e + 2] == 103 {
                Some(v as u32)
            } else {
                None
            }
        },
        None => None,
    }
}

/// The generation that the `i`-th of `names` gives, if it names a log file.
pub open spec fn name_gen(names: Seq<String>, i: int) -> Option<u32> {
    log_name_generation(encode_utf8(names[i]@))
}

/// The generations of a sequence of entries never decrease.
pub open spec fn gens_nondecreasing(v: Seq<(u32, String)>) -> bool {
    forall|a: int, b: int| 0 <= a < b < v.len() ==> v[a].0 <= v[b].0
}

/// `v` lists the log files among the first `n` of `names`, each once: entry
/// `a` is the name at index `ix[a]` with its generation. Entries are in
/// increasing order of generation, and names of one generation keep the
/// order in which they come in `names`.
pub open spec fn listed_from(names: Seq<String>, n: int, v: Seq<(u32, String)>, ix: Seq<int>) -> bool {
    &&& ix.len() == v.len()
    &&& forall|a: int|
        0 <= a < v.len() ==> 0 <= #[trigger] ix[a] < n && name_gen(names, ix[a]) == Some(v[a].0)
            && names[ix[a]]@ == v[a].1@
    &&& forall|a: int, b: int|
        0 <= a < b < v.len() ==> v[a].0 < v[b].0 || (v[a].0 == v[b].0 && ix[a] < ix[b])
    &&& forall|j: int|
        0 <= j < n && #[trigger] name_gen(names, j) is Some ==> exists|a: int|
            0 <= a < v.len() && ix[a] == j
}

/// Adds `(g, name)` after every entry of a generation up to `g`, before
/// every entry of a later one.
fn insert_after_equals(v: &mut Vec<(u32, String)>, g: u32, name: String) -> (p: usize)
    requires
        gens_nondecreasing(old(v)@),
    ensures
        p <= old(v)@.len(),
        final(v)@ == old(v)@.insert(p as int, (g, name)),
        forall|a: int| 0 <= a < p ==> old(v)@[a].0 <= g,
        forall|a: int| p <= a < old(v)@.len() ==> old(v)@[a].0 > g,
{
    let mut i: usize = 0;
    while i < v.len() && v[i].0 <= g
        invariant
            i <= v@.len(),
            v@ == old(v)@,
            forall|a: int| 0 <= a < i ==> v@[a].0 <= g,
        decreases v@.len() - i,
    {
        i = i + 1;
    }
    proof {
        assert forall|a: int| i <= a < v@.len() implies v@[a].0 > g by {
            assert(v@[i as int].0 <= v@[a].0 || a == i);
        }
    }
    v.insert(i, (g, name));
    i
}

/// Inserting the `i`-th name at its place keeps the list of the first
/// names.
proof fn lemma_listed_step(
    names: Seq<String>,
    i: int,
    before: Seq<(u32, String)>,
    ix: Seq<int>,
    g: u32,
    p: int,
)
    requires
        0 <= i < names.len(),
        0 <= p <= before.len(),
        listed_from(names, i, before, ix),
        name_gen(names, i) == Some(g),
        forall|a: int| 0 <= a < p ==> before[a].0 <= g,
        forall|a: int| p <= a < before.len() ==> before[a].0 > g,
    ensures
        listed_from(names, i + 1, before.insert(p, (g, names[i])), ix.insert(p, i)),
{
    let v = before.insert(p, (g, names[i]));
    let x = ix.insert(p, i);
    assert forall|a: int| 0 <= a < v.len() implies 0 <= #[trigger] x[a] < i + 1 && name_gen(
        names,
        x[a],
    ) == Some(v[a].0) && names[x[a]]@ == v[a].1@ by {
        if a < p {
            assert(x[a] == ix[a] && v[a] == before[a]);
        } else if a > p {
            assert(x[a] == ix[a - 1] && v[a] == before[a - 1]);
        } else {
            assert(x[a] == i && v[a] == (g, names[i]));
        }
    }
    assert forall|a: int, b: int| 0 <= a < b < v.len() implies v[a].0 < v[b].0 || (v[a].0
        == v[b].0 && x[a] < x[b]) by {
        if b < p {
            assert(v[a] == before[a] && v[b] == before[b] && x[a] == ix[a] && x[b] == ix[b]);
        } else if b == p {
            assert(v[a] == before[a] && x[a] == ix[a] && x[b] == i);
        } else if a < p {
            assert(v[a] == before[a] && v[b] == before[b - 1] && x[a] == ix[a] && x[b] == ix[b
                - 1]);
        } else if a == p {
            assert(v[b] == before[b - 1]);
        } else {
            assert(v[a] == before[a - 1] && v[b] == before[b - 1] && x[a] == ix[a - 1] && x[b]
                == ix[b - 1]);
        }
    }
    assert forall|j: int| 0 <= j < i + 1 && #[trigger] name_gen(names, j) is Some implies exists|a: int|
        0 <= a < v.len() && x[a] == j by {
        if j < i {
            let a = choose|a: int| 0 <= a < before.len() && ix[a] == j;
            if a < p {
                assert(x[a] == j);
            } else {
                assert(x[a + 1] == j);
            }
        } else {
            assert(x[p] == j);
        }
    }
}

/// The log files among `names` with their generations, in increasing order
/// of generation: the order in which they are replayed. Every name of the
/// form `<digits>.log` counts, leading zeros included, when its number fits
/// a `u32`. Names of one generation (`7.log` and `007.log`) all stay, in the
/// order in which they come in `names`.
pub fn log_files(names: &Vec<String>) -> (r: Vec<(u32, String)>)
    ensures
        gens_nondecreasing(r@),
        exists|ix: Seq<int>| listed_from(names@, names@.len() as int, r@, ix),
{
    let mut r: Vec<(u32, String)> = Vec::new();
    let mut i: usize = 0;
    let ghost mut ix: Seq<int> = Seq::empty();
    while i < names.len()
        invariant
            i <= names@.len(),
            listed_from(names@, i as int, r@, ix),
        decreases names@.len() - i,
    {
        let found = log_generation(names[i].as_str());
        assert(found == name_gen(names@, i as int));
        if let Some(g) = found {
            let ghost before = r@;
            proof {
                assert forall|a: int, b: int| 0 <= a < b < before.len() implies before[a].0
                    <= before[b].0 by {}
            }
            let p = insert_after_equals(&mut r, g, names[i].clone());
            proof {
                lemma_listed_step(names@, i as int, before, ix, g, p as int);
                ix = ix.insert(p as int, i as int);
            }
        }
        i = i + 1;
    }
    proof {
        assert forall|a: int, b: int| 0 <= a < b < r@.len() implies r@[a].0 <= r@[b].0 by {}
    }
    r
}

/// Whether a data directory may be opened with the engine `requested`,
/// given the content of its engine file, if it has one: `Ok(true)` when the
/// file is still to be written, `Ok(false)` when it names the same engine,
/// and `EngineMismatch` with the name it holds otherwise.
pub fn check_engine(marker: Option<String>, requested: &String) -> (r: Result<bool, KvsError>)
    ensures
        marker is None ==> r == Ok::<bool, KvsError>(true),
        marker matches Some(m) ==> (m@ == requested@ ==> r == Ok::<bool, KvsError>(false)),
        marker matches Some(m) ==> (m@ != requested@ ==> r == Err::<bool, KvsError>(
            KvsError::EngineMismatch(m),
        )),
{
    match marker {
        None => Ok(true),
        Some(m) => {
            if m == *requested {
                Ok(false)
            } else {
                Err(KvsError::EngineMismatch(m))
            }
        },
    }
}

} // verus!
