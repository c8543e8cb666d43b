//! Path resolution: where a record with a given identifier lives under the
//! storage root, for each layout mode.

use vstd::prelude::*;

use crate::text::push_range;

verus! {

/// How identifiers map to filesystem paths.
#[derive(Clone, Copy, Debug, PartialEq, Eq, Structural)]
pub enum LayoutMode {
    /// `<root>/<id>.json`; the identifier keeps its hyphenated form.
    Flat,
    /// `<root>/<hex[0:2]>/<hex[2:4]>/<hex>/demographics.json`; the
    /// identifier is compact lowercase hex. Bounds per-directory fan-out.
    Sharded,
}

/// The bytes of `/`.
pub open spec fn sep() -> Seq<u8> {
    seq![47u8]
}

/// The bytes of `.json`.
pub open spec fn flat_suffix() -> Seq<u8> {
    seq![46u8, 106u8, 115u8, 111u8, 110u8]
}

/// The bytes of `demographics.json`.
pub open spec fn leaf_name() -> Seq<u8> {
    seq![
        100u8,
        101u8,
        109u8,
        111u8,
        103u8,
        114u8,
        97u8,
        112u8,
        104u8,
        105u8,
        99u8,
        115u8,
        46u8,
        106u8,
        115u8,
        111u8,
        110u8,
    ]
}

/// The directory that holds a record's file: the root itself in flat mode,
/// the two shard levels plus the identifier directory in sharded mode.
pub open spec fn record_dir_spec(root: Seq<u8>, mode: LayoutMode, id: Seq<u8>) -> Seq<u8> {
    match mode {
        LayoutMode::Flat => root,
        LayoutMode::Sharded => root + sep() + id.subrange(0, 2) + sep() + id.subrange(2, 4) + sep()
            + id,
    }
}

/// The full path of a record's file.
pub open spec fn resolve_spec(root: Seq<u8>, mode: LayoutMode, id: Seq<u8>) -> Seq<u8> {
    match mode {
        LayoutMode::Flat => root + sep() + id + flat_suffix(),
        LayoutMode::Sharded => record_dir_spec(root, mode, id) + sep() + leaf_name(),
    }
}

/// Appends a whole vector's bytes onto `out`.
fn push_all(out: &mut Vec<u8>, s: &Vec<u8>)
    ensures
        final (out)@ == old(out)@ + s@,
{
    let ghost orig = out@;
    push_range(out, s, 0, s.len());
    proof {
        assert(s@.subrange(0, s@.len() as int) =~= s@);
    }
}

/// The directory a record's file goes in. A pure function of its inputs:
/// equal arguments always give the equal path.
pub fn record_dir(root: &Vec<u8>, mode: LayoutMode, id: &Vec<u8>) -> (r: Vec<u8>)
    requires
        mode == LayoutMode::Sharded ==> id@.len() >= 4,
    ensures
        r@ == record_dir_spec(root@, mode, id@),
{
    let mut r: Vec<u8> = Vec::new();
    push_all(&mut r, root);
    match mode {
        LayoutMode::Flat => {
            proof {
                assert(r@ =~= record_dir_spec(root@, mode, id@));
            }
        },
        LayoutMode::Sharded => {
            r.push(47);
            push_range(&mut r, id, 0, 2);
            r.push(47);
            push_range(&mut r, id, 2, 4);
            r.push(47);
            push_all(&mut r, id);
            proof {
                assert(r@ =~= record_dir_spec(root@, mode, id@));
            }
        },
    }
    r
}

/// Resolves the file path of the record with identifier `id` under `root`.
/// A pure function of its inputs: equal arguments always give the equal
/// path, and resolution itself never fails.
pub fn resolve(root: &Vec<u8>, mode: LayoutMode, id: &Vec<u8>) -> (r: Vec<u8>)
    requires
        mode == LayoutMode::Sharded ==> id@.len() >= 4,
    ensures
        r@ == resolve_spec(root@, mode, id@),
{
    match mode {
        LayoutMode::Flat => {
            let mut r: Vec<u8> = Vec::new();
            push_all(&mut r, root);
            r.push(47);
            push_all(&mut r, id);
            r.push(46);
            r.push(106);
            r.push(115);
            r.push(111);
            r.push(110);
            proof {
                assert(r@ =~= resolve_spec(root@, mode, id@));
            }
            r
        },
        LayoutMode::Sharded => {
            let mut r = record_dir(root, mode, id);
            r.push(47);
            let leaf: [u8; 17] = [
                100,
                101,
                109,
                111,
                103,
                114,
                97,
                112,
                104,
                105,
                99,
                115,
                46,
                106,
                115,
                111,
                110,
            ];
            let mut k: usize = 0;
            while k < 17
                invariant
                    0 <= k <= 17,
                    leaf@ == leaf_name(),
                    r@ == record_dir_spec(root@, mode, id@) + sep() + leaf_name().take(k as int),
                decreases 17 - k,
            {
                r.push(leaf[k]);
                proof {
                    assert(leaf_name().take(k + 1 as int) =~= leaf_name().take(k as int).push(
                        leaf_name()[k as int],
                    ));
                }
                k = k + 1;
            }
            proof {
                assert(leaf_name().take(17) =~= leaf_name());
                assert(r@ =~= resolve_spec(root@, mode, id@));
            }
            r
        },
    }
}

} // verus!
