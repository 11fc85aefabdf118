//! NumPy `.npz` archives: a ZIP archive holding one `.npy` file per array,
//! named after the array.

use vstd::prelude::*;
use vstd::string::*;
use crate::error::MmnError;
use crate::npy::{decode_npy, encode_npy_f32, npy_fits, prod, spec_decode_npy, spec_encode_npy_f32, string_of, sub_chars, NpyArray, NpyView};
use crate::text::{chars_match, chars_of};
use crate::zip::{entries_view, read_zip, spec_read_zip, spec_zip_stored, write_too_large, write_zip_stored};

verus! {

/// The array name of an entry called `{stem}.npy`.
pub open spec fn npy_stem(n: Seq<char>) -> Option<Seq<char>> {
    if n.len() >= 4 && n.skip(n.len() - 4) == ".npy"@ {
        Some(n.take(n.len() - 4))
    } else {
        None
    }
}

/// The arrays of an archive's `.npy` entries, in entry order; other
/// entries are passed over. `None` when one of them is refused.
pub open spec fn npz_arrays(es: Seq<(Seq<char>, Seq<u8>)>) -> Option<Seq<(Seq<char>, NpyView)>>
    decreases es.len(),
{
    if es.len() == 0 {
        Some(Seq::empty())
    } else {
        match npz_arrays(es.drop_last()) {
            None => None,
            Some(acc) => match npy_stem(es.last().0) {
                None => Some(acc),
                Some(stem) => match spec_decode_npy(es.last().1) {
                    Some(v) => Some(acc.push((stem, v))),
                    None => None,
                },
            },
        }
    }
}

/// The name of an entry as `{stem}.npy` when it has that form.
fn stem_of(name: &str) -> (r: Option<String>)
    ensures
        match npy_stem(name@) {
            Some(s) => r matches Some(t) && t@ == s,
            None => r is None,
        },
{
    let cs = chars_of(name);
    let n = cs.len();
    if n < 4 {
        return None;
    }
    if !chars_match(&cs, n - 4, ".npy") {
        assert(cs@.subrange(n - 4, n as int) =~= cs@.skip(n - 4));
        return None;
    }
    assert(cs@.subrange(n - 4, n as int) =~= cs@.skip(n - 4));
    let stem = sub_chars(&cs, 0, n - 4);
    assert(stem@ =~= cs@.take(n - 4));
    Some(string_of(&stem))
}

/// The `.npy` arrays of an `.npz` archive, named after their entries
/// without the `.npy` suffix, in entry order.
pub fn read_npz_arrays_bytes(bytes: &[u8]) -> (r: Result<Vec<(String, NpyArray)>, MmnError>)
    requires
        bytes@.len() <= usize::MAX / 8,
        spec_read_zip(bytes@) matches Some(es) ==> forall|i: int| 0 <= i < es.len() ==> #[trigger] npy_fits(es[i].1),
    ensures
        match spec_read_zip(bytes@) {
            None => r is Err,
            Some(es) => match npz_arrays(es) {
                Some(a) => r matches Ok(v) && v@.len() == a.len() && forall|i: int|
                    0 <= i < a.len() ==> (#[trigger] v@[i]).0@ == a[i].0 && v@[i].1.view() == a[i].1,
                None => r is Err,
            },
        },
{
    let entries = match read_zip(bytes) {
        Ok(e) => e,
        Err(e) => return Err(e),
    };
    let ghost es = spec_read_zip(bytes@)->Some_0;
    let mut out: Vec<(String, NpyArray)> = Vec::new();
    let mut i: usize = 0;
    assert(es.take(0) =~= Seq::<(Seq<char>, Seq<u8>)>::empty());
    while i < entries.len()
        invariant
            spec_read_zip(bytes@) == Some(es),
            entries@.len() == es.len(),
            forall|k: int| 0 <= k < es.len() ==> (#[trigger] entries@[k])@ == es[k],
            forall|k: int| 0 <= k < es.len() ==> #[trigger] npy_fits(es[k].1),
            i <= es.len(),
            npz_arrays(es.take(i as int)) matches Some(a) && out@.len() == a.len() && forall|k: int|
                0 <= k < a.len() ==> (#[trigger] out@[k]).0@ == a[k].0 && out@[k].1.view() == a[k].1,
        decreases es.len() - i,
    {
        proof {
            assert(es.take(i + 1).drop_last() =~= es.take(i as int));
            assert(entries@[i as int]@ == es[i as int]);
        }
        let e = &entries[i];
        match stem_of(e.name.as_str()) {
            None => {},
            Some(stem) => {
                assert(npy_fits(es[i as int].1));
                match decode_npy(e.data.as_slice()) {
                    Ok(arr) => {
                        out.push((stem, arr));
                    },
                    Err(err) => {
                        proof {
                            assert(npz_arrays(es.take(i + 1)) is None);
                            lemma_npz_none_extends(es, i as int + 1);
                        }
                        return Err(MmnError::with_detail("npz entry not readable as npy: ", err.message.as_str()));
                    },
                }
            },
        }
        i = i + 1;
    }
    assert(es.take(i as int) =~= es);
    Ok(out)
}

proof fn lemma_npz_none_extends(es: Seq<(Seq<char>, Seq<u8>)>, i: int)
    requires
        0 <= i <= es.len(),
        npz_arrays(es.take(i)) is None,
    ensures
        npz_arrays(es) is None,
    decreases es.len() - i,
{
    if i < es.len() {
        assert(es.take(i + 1).drop_last() =~= es.take(i));
        lemma_npz_none_extends(es, i + 1);
    } else {
        assert(es.take(i) =~= es);
    }
}

/// The archive entries written for named arrays: `{name}.npy` holding each
/// array encoded as `<f4`. `None` when one cannot be encoded.
pub open spec fn npz_entries(arrays: Seq<(Seq<char>, Seq<usize>, Seq<u32>)>) -> Option<Seq<(Seq<char>, Seq<u8>)>>
    decreases arrays.len(),
{
    if arrays.len() == 0 {
        Some(Seq::empty())
    } else {
        match npz_entries(arrays.drop_last()) {
            None => None,
            Some(acc) => {
                let (name, shape, data) = arrays.last();
                if prod(shape) != data.len() {
                    None
                } else {
                    match spec_encode_npy_f32(shape, data) {
                        Some(b) => Some(acc.push((name + ".npy"@, b))),
                        None => None,
                    }
                }
            },
        }
    }
}

/// The views of named arrays.
pub open spec fn arrays_view(a: Seq<(String, Vec<usize>, Vec<u32>)>) -> Seq<(Seq<char>, Seq<usize>, Seq<u32>)> {
    Seq::new(a.len(), |i: int| (a[i].0@, a[i].1@, a[i].2@))
}

proof fn lemma_entries_none_extends(a: Seq<(Seq<char>, Seq<usize>, Seq<u32>)>, i: int)
    requires
        0 <= i <= a.len(),
        npz_entries(a.take(i)) is None,
    ensures
        npz_entries(a) is None,
    decreases a.len() - i,
{
    if i < a.len() {
        assert(a.take(i + 1).drop_last() =~= a.take(i));
        lemma_entries_none_extends(a, i + 1);
    } else {
        assert(a.take(i) =~= a);
    }
}

/// An `.npz` archive holding each array, given as `<f4` bit patterns, as
/// `{name}.npy`, stored uncompressed.
pub fn write_npz_arrays_bytes(arrays: &[(String, Vec<usize>, Vec<u32>)]) -> (r: Result<Vec<u8>, MmnError>)
    requires
        forall|k: int, i: int|
            0 <= k < arrays@.len() && 0 <= i <= arrays@[k].1@.len() ==> #[trigger] prod(arrays@[k].1@.take(i))
                <= usize::MAX,
    ensures
        match npz_entries(arrays_view(arrays@)) {
            None => r is Err,
            Some(es) => if write_too_large(es) {
                r is Err
            } else {
                r matches Ok(v) && v@ == spec_zip_stored(es)
            },
        },
{
    let ghost av = arrays_view(arrays@);
    let mut entries: Vec<(String, Vec<u8>)> = Vec::new();
    let mut i: usize = 0;
    assert(av.take(0) =~= Seq::<(Seq<char>, Seq<usize>, Seq<u32>)>::empty());
    while i < arrays.len()
        invariant
            av == arrays_view(arrays@),
            i <= arrays@.len(),
            forall|k: int, j: int|
                0 <= k < arrays@.len() && 0 <= j <= arrays@[k].1@.len() ==> #[trigger] prod(
                    arrays@[k].1@.take(j),
                ) <= usize::MAX,
            npz_entries(av.take(i as int)) == Some(entries_view(entries@)),
        decreases arrays@.len() - i,
    {
        proof {
            assert(av.take(i + 1).drop_last() =~= av.take(i as int));
            assert(av.take(i + 1).last() == av[i as int]);
        }
        let (name, shape, data) = &arrays[i];
        assert(forall|j: int| 0 <= j <= shape@.len() ==> #[trigger] prod(shape@.take(j)) <= usize::MAX) by {
            assert forall|j: int| 0 <= j <= shape@.len() implies #[trigger] prod(shape@.take(j)) <= usize::MAX by {
                assert(prod(arrays@[i as int].1@.take(j)) <= usize::MAX);
            }
        }
        match encode_npy_f32(shape.as_slice(), data.as_slice()) {
            Ok(b) => {
                let mut n = name.clone();
                proof {
                    reveal_strlit(".npy");
                }
                let ghost nv = name@;
                n.append(".npy");
                let ghost before = entries_view(entries@);
                entries.push((n, b));
                proof {
                    assert(entries_view(entries@) =~= before.push((nv + ".npy"@, b@)));
                }
            },
            Err(e) => {
                proof {
                    assert(npz_entries(av.take(i + 1)) is None);
                    lemma_entries_none_extends(av, i + 1);
                }
                return Err(e);
            },
        }
        i = i + 1;
    }
    assert(av.take(i as int) =~= av);
    write_zip_stored(entries.as_slice())
}

} // verus!
