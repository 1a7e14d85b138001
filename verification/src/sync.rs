//! The dump and populate orchestrators.
//!
//! Dump lists a bucket and appends every object it can fetch into a fresh
//! archive container; populate uploads every entry of a container into a
//! bucket.  Both record one outcome per object, in order, and continue
//! past a single object's failure; only an enumeration failure (dump) or
//! an unreadable container (populate) aborts a run.
use vstd::prelude::*;

use crate::codec::{
    decode_archive, encode_archive, entries_view, entry_wf, parse_archive, ArchiveWriter,
    CodecError,
};
use crate::store::{copy_bytes, ObjectStore, StoreError};

verus! {

/// Why one object's transfer failed.
#[derive(Debug)]
pub enum FailureCause {
    /// The store refused the fetch or the upload.
    Store(StoreError),
    /// The archive container could not represent the object.
    Codec(CodecError),
}

/// The recorded result of one object's transfer.
#[derive(Debug)]
pub enum Outcome {
    Success { key: Vec<u8> },
    Failure { key: Vec<u8>, cause: FailureCause },
}

impl Outcome {
    /// The key the outcome is about.
    pub open spec fn key_view(&self) -> Seq<u8> {
        match self {
            Outcome::Success { key } => key@,
            Outcome::Failure { key, .. } => key@,
        }
    }

    /// The key the outcome is about.
    pub fn key_bytes(&self) -> (k: &Vec<u8>)
        ensures
            k@ == self.key_view(),
    {
        match self {
            Outcome::Success { key } => key,
            Outcome::Failure { key, .. } => key,
        }
    }

    /// Whether the transfer succeeded.
    pub fn succeeded(&self) -> (b: bool)
        ensures
            b <==> self is Success,
    {
        match self {
            Outcome::Success { .. } => true,
            Outcome::Failure { .. } => false,
        }
    }
}

/// An error that aborts a whole run.
#[derive(Debug)]
pub enum FatalError {
    /// The bucket could not be enumerated; nothing was transferred.
    ListFailed(StoreError),
    /// The archive is not a well-formed container; nothing was uploaded.
    ArchiveMalformed(CodecError),
}

/// The file-name suffix a dump appends to the bucket name: `_dump.tar`.
pub open spec fn dump_suffix() -> Seq<u8> {
    seq![0x5fu8, 0x64u8, 0x75u8, 0x6du8, 0x70u8, 0x2eu8, 0x74u8, 0x61u8, 0x72u8]
}

/// The archive file name a dump derives from the bucket name: the
/// bucket's bytes followed by `_dump.tar`.
pub fn archive_path(bucket: &Vec<u8>) -> (r: Vec<u8>)
    ensures
        r@ == bucket@ + dump_suffix(),
{
    let mut out = copy_bytes(bucket);
    out.push(0x5f);
    out.push(0x64);
    out.push(0x75);
    out.push(0x6d);
    out.push(0x70);
    out.push(0x2e);
    out.push(0x74);
    out.push(0x61);
    out.push(0x72);
    proof {
        assert(out@ =~= bucket@ + dump_suffix());
    }
    out
}

/// The keys of a run of outcomes, in order.
pub open spec fn outcome_keys(os: Seq<Outcome>) -> Seq<Seq<u8>> {
    os.map_values(|o: Outcome| o.key_view())
}

/// Whether an outcome records that the archive format refused the object.
pub open spec fn is_codec_failure(o: Outcome) -> bool {
    o matches Outcome::Failure { cause: FailureCause::Codec(_), .. }
}

/// The (key, payload) pairs of the successful outcomes, in order, with
/// payloads read from the store model `m`.
pub open spec fn success_pairs(os: Seq<Outcome>, m: Map<Seq<u8>, Seq<u8>>) -> Seq<
    (Seq<u8>, Seq<u8>),
>
    decreases os.len(),
{
    if os.len() == 0 {
        Seq::empty()
    } else {
        let rest = success_pairs(os.drop_last(), m);
        if os.last() is Success {
            rest.push((os.last().key_view(), m[os.last().key_view()]))
        } else {
            rest
        }
    }
}

/// What a finished dump's outcomes say of the store `m` they were taken
/// from: one outcome per listed key, the listed keys are exactly the
/// bucket's keys with none repeated, and every success names an object
/// the archive could represent.
pub open spec fn dump_outcomes_wf(os: Seq<Outcome>, m: Map<Seq<u8>, Seq<u8>>) -> bool {
    &&& outcome_keys(os).no_duplicates()
    &&& forall|k: Seq<u8>| outcome_keys(os).contains(k) <==> m.dom().contains(k)
    &&& forall|i: int|
        0 <= i < os.len() ==> ((#[trigger] os[i]) is Success ==> m.contains_key(os[i].key_view())
            && entry_wf(os[i].key_view(), m[os[i].key_view()]))
    &&& forall|i: int|
        0 <= i < os.len() ==> (is_codec_failure(#[trigger] os[i]) ==> m.contains_key(
            os[i].key_view(),
        ) && !entry_wf(os[i].key_view(), m[os[i].key_view()]))
}

/// A finished dump: the archive container's bytes and one outcome per
/// listed object.
#[derive(Debug)]
pub struct DumpResult {
    pub archive: Vec<u8>,
    pub outcomes: Vec<Outcome>,
}

/// Fetches every listed key, in listing order, and appends each object it
/// can fetch and encode into a fresh container; one key's failure never
/// aborts the run.  The returned archive holds exactly the successful
/// objects, in order.
pub fn dump_listed<S: ObjectStore>(store: &S, keys: &Vec<Vec<u8>>) -> (out: DumpResult)
    requires
        store.inv(),
    ensures
        out.outcomes@.len() == keys@.len(),
        forall|i: int|
            0 <= i < keys@.len() ==> (#[trigger] out.outcomes@[i]).key_view() == keys@[i]@,
        forall|i: int|
            0 <= i < keys@.len() ==> ((#[trigger] out.outcomes@[i]) is Success
                ==> store.contents().contains_key(keys@[i]@) && entry_wf(
                keys@[i]@,
                store.contents()[keys@[i]@],
            )),
        forall|i: int|
            0 <= i < keys@.len() ==> (is_codec_failure(#[trigger] out.outcomes@[i])
                ==> store.contents().contains_key(keys@[i]@) && !entry_wf(
                keys@[i]@,
                store.contents()[keys@[i]@],
            )),
        out.archive@ == encode_archive(success_pairs(out.outcomes@, store.contents())),
        parse_archive(out.archive@) == Option::Some(
            success_pairs(out.outcomes@, store.contents()),
        ),
{
    let ghost m = store.contents();
    let mut writer = ArchiveWriter::new();
    let mut outcomes: Vec<Outcome> = Vec::new();
    let mut i: usize = 0;
    proof {
        assert(success_pairs(outcomes@, m) =~= Seq::<(Seq<u8>, Seq<u8>)>::empty());
    }
    while i < keys.len()
        invariant
            i <= keys@.len(),
            store.inv(),
            m == store.contents(),
            writer.wf(),
            outcomes@.len() == i,
            forall|j: int| 0 <= j < i ==> (#[trigger] outcomes@[j]).key_view() == keys@[j]@,
            forall|j: int|
                0 <= j < i ==> ((#[trigger] outcomes@[j]) is Success ==> m.contains_key(keys@[j]@)
                    && entry_wf(keys@[j]@, m[keys@[j]@])),
            forall|j: int|
                0 <= j < i ==> (is_codec_failure(#[trigger] outcomes@[j]) ==> m.contains_key(
                    keys@[j]@,
                ) && !entry_wf(keys@[j]@, m[keys@[j]@])),
            writer.entries() == success_pairs(outcomes@, m),
        decreases keys@.len() - i,
    {
        let key = &keys[i];
        let ghost prev = outcomes@;
        match store.get(key) {
            Ok(data) => {
                match writer.append(key, &data) {
                    Ok(_) => {
                        outcomes.push(Outcome::Success { key: copy_bytes(key) });
                    },
                    Err(ce) => {
                        outcomes.push(
                            Outcome::Failure {
                                key: copy_bytes(key),
                                cause: FailureCause::Codec(ce),
                            },
                        );
                    },
                }
            },
            Err(se) => {
                outcomes.push(
                    Outcome::Failure { key: copy_bytes(key), cause: FailureCause::Store(se) },
                );
            },
        }
        proof {
            assert(outcomes@.drop_last() =~= prev);
            assert(outcomes@.last() == outcomes@[i as int]);
            assert(writer.entries() == success_pairs(outcomes@, m));
        }
        i += 1;
    }
    let archive = writer.finalize();
    DumpResult { archive, outcomes }
}

/// Dumps a whole bucket: lists it, then transfers every listed object
/// into a fresh container.  A listing failure is fatal and produces no
/// archive; any other failure is recorded per object and the run
/// completes.
pub fn dump<S: ObjectStore>(store: &S) -> (r: Result<DumpResult, FatalError>)
    requires
        store.inv(),
    ensures
        match r {
            Ok(out) => {
                &&& dump_outcomes_wf(out.outcomes@, store.contents())
                &&& out.archive@ == encode_archive(success_pairs(out.outcomes@, store.contents()))
                &&& parse_archive(out.archive@) == Option::Some(
                    success_pairs(out.outcomes@, store.contents()),
                )
            },
            Err(e) => e is ListFailed,
        },
{
    let keys = match store.list() {
        Ok(keys) => keys,
        Err(se) => {
            return Err(FatalError::ListFailed(se));
        },
    };
    let out = dump_listed(store, &keys);
    proof {
        let ks = keys@.map_values(|k: Vec<u8>| k@);
        assert(outcome_keys(out.outcomes@) =~= ks);
    }
    Ok(out)
}

/// The store model after a run of puts: each successful outcome stores
/// its entry's payload under its entry's name, in order; failed outcomes
/// change nothing.
pub open spec fn apply_outcomes(
    m: Map<Seq<u8>, Seq<u8>>,
    es: Seq<(Seq<u8>, Seq<u8>)>,
    os: Seq<Outcome>,
) -> Map<Seq<u8>, Seq<u8>>
    decreases os.len(),
{
    if os.len() == 0 || es.len() == 0 {
        m
    } else {
        let prev = apply_outcomes(m, es.drop_last(), os.drop_last());
        if os.last() is Success {
            prev.insert(es.last().0, es.last().1)
        } else {
            prev
        }
    }
}

/// Uploads every entry of the container into the bucket, in on-disk
/// order; one entry's failure never aborts the run.  A container that
/// does not decode is fatal: nothing is uploaded and the bucket is
/// unchanged.
pub fn populate<S: ObjectStore>(archive: &Vec<u8>, store: &mut S) -> (r: Result<
    Vec<Outcome>,
    FatalError,
>)
    requires
        old(store).inv(),
    ensures
        final(store).inv(),
        match r {
            Ok(os) => {
                &&& parse_archive(archive@) is Some
                &&& os@.len() == parse_archive(archive@).unwrap().len()
                &&& forall|i: int|
                    0 <= i < os@.len() ==> (#[trigger] os@[i]).key_view() == parse_archive(
                        archive@,
                    ).unwrap()[i].0
                &&& final(store).contents() == apply_outcomes(
                    old(store).contents(),
                    parse_archive(archive@).unwrap(),
                    os@,
                )
            },
            Err(e) => {
                &&& e is ArchiveMalformed
                &&& parse_archive(archive@) is None
                &&& final(store).contents() == old(store).contents()
            },
        },
{
    let entries = match decode_archive(archive) {
        Ok(es) => es,
        Err(ce) => {
            return Err(FatalError::ArchiveMalformed(ce));
        },
    };
    let ghost ges = entries_view(entries@);
    let mut outcomes: Vec<Outcome> = Vec::new();
    let mut i: usize = 0;
    proof {
        assert(ges.take(0) =~= Seq::<(Seq<u8>, Seq<u8>)>::empty());
    }
    while i < entries.len()
        invariant
            i <= entries@.len(),
            store.inv(),
            ges == entries_view(entries@),
            parse_archive(archive@) == Option::Some(ges),
            outcomes@.len() == i,
            forall|j: int| 0 <= j < i ==> (#[trigger] outcomes@[j]).key_view() == ges[j].0,
            store.contents() == apply_outcomes(old(store).contents(), ges.take(i as int), outcomes@),
        decreases entries@.len() - i,
    {
        let e = &entries[i];
        let ghost prev = outcomes@;
        proof {
            assert(ges[i as int] == (e.name@, e.data@));
        }
        match store.put(&e.name, &e.data) {
            Ok(_) => {
                outcomes.push(Outcome::Success { key: copy_bytes(&e.name) });
            },
            Err(se) => {
                outcomes.push(
                    Outcome::Failure { key: copy_bytes(&e.name), cause: FailureCause::Store(se) },
                );
            },
        }
        proof {
            assert(outcomes@.drop_last() =~= prev);
            assert(ges.take(i + 1).drop_last() =~= ges.take(i as int));
            assert(ges.take(i + 1).last() == ges[i as int]);
            assert(store.contents() == apply_outcomes(
                old(store).contents(),
                ges.take(i + 1),
                outcomes@,
            ));
        }
        i += 1;
    }
    proof {
        assert(ges.take(entries@.len() as int) =~= ges);
    }
    Ok(outcomes)
}

} // verus!

