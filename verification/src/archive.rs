//! Archive mode: several named resources live as entries of one zip-style
//! container, each holding its serialized payload uncompressed at this
//! library's level — the container applies its own entry compression.  The
//! container format is an outside collaborator; what is verified here is the
//! bookkeeping: which entries a produced container holds, that saving a
//! resource preserves the other entries and fully overwrites its own name,
//! and that loading returns exactly the stored payload.

use vstd::prelude::*;

use crate::errors::LoadError;
use crate::errors::SaveError;

verus! {

/// Whether some entry of `es` is named `k`.
pub open spec fn has_name(es: Seq<(Seq<char>, Seq<u8>)>, k: Seq<char>) -> bool {
    exists|i: int| 0 <= i < es.len() && es[i].0 == k
}

/// Whether the entry names of `es` are pairwise distinct.
pub open spec fn unique_names(es: Seq<(Seq<char>, Seq<u8>)>) -> bool {
    forall|i: int, j: int| 0 <= i < j < es.len() ==> es[i].0 != es[j].0
}

/// The name-to-payload map that an entry sequence denotes; a later entry
/// shadows an earlier one of the same name.
pub open spec fn map_of(es: Seq<(Seq<char>, Seq<u8>)>) -> Map<Seq<char>, Seq<u8>>
    decreases es.len(),
{
    if es.len() == 0 {
        Map::empty()
    } else {
        map_of(es.drop_last()).insert(es.last().0, es.last().1)
    }
}

/// Appending an entry inserts it into the denoted map.
pub proof fn lemma_map_of_push(es: Seq<(Seq<char>, Seq<u8>)>, n: Seq<char>, p: Seq<u8>)
    ensures
        map_of(es.push((n, p))) == map_of(es).insert(n, p),
{
    assert(es.push((n, p)).drop_last() =~= es);
    assert(es.push((n, p)).last() == (n, p));
}

/// A name is in the denoted map exactly when some entry carries it.
pub proof fn lemma_map_of_dom(es: Seq<(Seq<char>, Seq<u8>)>)
    ensures
        forall|k: Seq<char>| #[trigger] map_of(es).dom().contains(k) <==> has_name(es, k),
    decreases es.len(),
{
    if es.len() == 0 {
        assert forall|k: Seq<char>| #[trigger]
            map_of(es).dom().contains(k) <==> has_name(es, k) by {
            assert(map_of(es) == Map::<Seq<char>, Seq<u8>>::empty());
            assert(!Map::<Seq<char>, Seq<u8>>::empty().dom().contains(k));
            assert(!has_name(es, k));
        }
    } else {
        lemma_map_of_dom(es.drop_last());
        let dl = es.drop_last();
        assert forall|k: Seq<char>| #[trigger]
            map_of(es).dom().contains(k) <==> has_name(es, k) by {
            assert(map_of(es) == map_of(dl).insert(es.last().0, es.last().1));
            assert(map_of(dl).dom().contains(k) <==> has_name(dl, k));
            if k == es.last().0 {
                assert(map_of(es).dom().contains(k));
                assert(0 <= es.len() - 1 < es.len() && es[es.len() - 1].0 == k);
                assert(has_name(es, k));
            } else {
                assert(map_of(es).dom().contains(k) <==> map_of(dl).dom().contains(k));
                if has_name(dl, k) {
                    let i = choose|i: int| 0 <= i < dl.len() && dl[i].0 == k;
                    assert(0 <= i < es.len() && es[i].0 == k);
                    assert(has_name(es, k));
                }
                if has_name(es, k) {
                    let i = choose|i: int| 0 <= i < es.len() && es[i].0 == k;
                    assert(es[es.len() - 1] == es.last());
                    assert(i < es.len() - 1);
                    assert(0 <= i < dl.len() && dl[i].0 == k);
                    assert(has_name(dl, k));
                }
            }
        }
    }
}

/// Appending a fresh name keeps the names unique.
pub proof fn lemma_push_unique(es: Seq<(Seq<char>, Seq<u8>)>, n: Seq<char>, p: Seq<u8>)
    requires
        unique_names(es),
        !has_name(es, n),
    ensures
        unique_names(es.push((n, p))),
{
    let es2 = es.push((n, p));
    assert forall|i: int, j: int| 0 <= i < j < es2.len() implies es2[i].0 != es2[j].0 by {
        if j == es.len() {
            assert(es2[i] == es[i]);
            assert(!(0 <= i < es.len() && es[i].0 == n));
        } else {
            assert(es2[i] == es[i] && es2[j] == es[j]);
        }
    }
}

/// Under unique names, every entry's payload is what the denoted map holds.
pub proof fn lemma_map_of_value(es: Seq<(Seq<char>, Seq<u8>)>, i: int)
    requires
        unique_names(es),
        0 <= i < es.len(),
    ensures
        map_of(es).dom().contains(es[i].0),
        map_of(es)[es[i].0] == es[i].1,
    decreases es.len(),
{
    if i == es.len() - 1 {
        assert(es.last() == es[i]);
    } else {
        assert(es[i].0 != es.last().0);
        lemma_map_of_value(es.drop_last(), i);
        assert(es.drop_last()[i] == es[i]);
    }
}

/// The names of `es`'s entries, in order.
pub open spec fn names_seq(es: Seq<(Seq<char>, Seq<u8>)>) -> Seq<Seq<char>> {
    es.map_values(|e: (Seq<char>, Seq<u8>)| e.0)
}

/// A name list that mirrors an entry sequence agrees with it in length and
/// at every index.
pub proof fn lemma_names_align(ns: Seq<String>, es0: Seq<(Seq<char>, Seq<u8>)>)
    requires
        ns.map_values(|s: String| s@) == names_seq(es0),
    ensures
        ns.len() == es0.len(),
        forall|i: int| 0 <= i < es0.len() ==> ns[i]@ == #[trigger] es0[i].0,
{
    assert(ns.map_values(|s: String| s@).len() == ns.len());
    assert(names_seq(es0).len() == es0.len());
    assert forall|i: int| 0 <= i < es0.len() implies ns[i]@ == #[trigger] es0[i].0 by {
        assert(ns.map_values(|s: String| s@)[i] == ns[i]@);
        assert(names_seq(es0)[i] == es0[i].0);
    }
}

/// The entries of `es` not named `name`, in order.
pub open spec fn keep_others(es: Seq<(Seq<char>, Seq<u8>)>, name: Seq<char>) -> Seq<
    (Seq<char>, Seq<u8>),
> {
    es.filter(|e: (Seq<char>, Seq<u8>)| e.0 != name)
}

/// Whether the writer accepts every entry of `es`, added in this order.
pub open spec fn writer_accepts_all(es: Seq<(Seq<char>, Seq<u8>)>) -> bool
    decreases es.len(),
{
    es.len() == 0 || (writer_accepts_all(es.drop_last()) && writer_accepts(
        es.drop_last(),
        es.last().0,
        es.last().1,
    ))
}

/// Under an accepted chain, each entry is accepted after exactly those
/// before it.
pub proof fn lemma_accepts_all_at(es: Seq<(Seq<char>, Seq<u8>)>, k: int)
    requires
        writer_accepts_all(es),
        0 <= k < es.len(),
    ensures
        writer_accepts(es.subrange(0, k), es[k].0, es[k].1),
    decreases es.len(),
{
    if k == es.len() - 1 {
        assert(es.drop_last() =~= es.subrange(0, k));
        assert(es.last() == es[k]);
    } else {
        lemma_accepts_all_at(es.drop_last(), k);
        assert(es.drop_last().subrange(0, k) =~= es.subrange(0, k));
        assert(es.drop_last()[k] == es[k]);
    }
}

/// Dropping one name distributes over concatenation.
pub proof fn lemma_keep_others_add(
    a: Seq<(Seq<char>, Seq<u8>)>,
    b: Seq<(Seq<char>, Seq<u8>)>,
    name: Seq<char>,
)
    ensures
        keep_others(a + b, name) == keep_others(a, name) + keep_others(b, name),
    decreases b.len(),
{
    reveal(Seq::<(Seq<char>, Seq<u8>)>::filter);
    if b.len() == 0 {
        assert(a + b =~= a);
        assert(keep_others(b, name) =~= Seq::<(Seq<char>, Seq<u8>)>::empty());
        assert(keep_others(a, name) + keep_others(b, name) =~= keep_others(a, name));
    } else {
        lemma_keep_others_add(a, b.drop_last(), name);
        assert((a + b).drop_last() =~= a + b.drop_last());
        assert((a + b).last() == b.last());
        if b.last().0 != name {
            assert(keep_others(b, name) == keep_others(b.drop_last(), name).push(b.last()));
            assert(keep_others(a + b, name) == (keep_others(a, name) + keep_others(
                b.drop_last(),
                name,
            )).push(b.last()));
            assert((keep_others(a, name) + keep_others(b.drop_last(), name)).push(b.last())
                =~= keep_others(a, name) + keep_others(b.drop_last(), name).push(b.last()));
        } else {
            assert(keep_others(b, name) == keep_others(b.drop_last(), name));
            assert(keep_others(a + b, name) == keep_others(a, name) + keep_others(
                b.drop_last(),
                name,
            ));
        }
    }
}

/// An archive writer over an in-memory buffer.  The zip container it builds
/// is opaque; `writer_entries` names the entries written into it so far.
#[verifier::external_body]
pub struct ArchiveWriter {
    inner: zip::write::ZipWriter<std::io::Cursor<Vec<u8>>>,
}

/// The named entries written into `w` so far, in order.
pub uninterp spec fn writer_entries(w: ArchiveWriter) -> Seq<(Seq<char>, Seq<u8>)>;

/// Whether `w` is cleanly built: fresh, or extended only by successful entry
/// writes, with no aborted half-entry in its buffer.
pub uninterp spec fn writer_clean(w: ArchiveWriter) -> bool;

/// Whether the writer accepts one more entry `(name, data)` after the
/// entries `es`: the format bounds name lengths and accumulated sizes.
/// A function of its arguments alone.
pub uninterp spec fn writer_accepts(
    es: Seq<(Seq<char>, Seq<u8>)>,
    name: Seq<char>,
    data: Seq<u8>,
) -> bool;

/// The finished container bytes for an entry sequence.  The writer uses fixed
/// options (Deflate, fixed permissions, a fixed system byte, the format's
/// fixed default timestamp), so the bytes are a function of the entries
/// alone.
pub uninterp spec fn archive_bytes_of(es: Seq<(Seq<char>, Seq<u8>)>) -> Seq<u8>;

/// Relies on zip::write::ZipWriter::new over an empty in-memory buffer: a new
/// archive holds no entries and is clean.
#[verifier::external_body]
pub(crate) fn writer_new() -> (w: ArchiveWriter)
    ensures
        writer_entries(w) == Seq::<(Seq<char>, Seq<u8>)>::empty(),
        writer_clean(w),
{
    ArchiveWriter { inner: zip::write::ZipWriter::new(std::io::Cursor::new(Vec::new())) }
}

/// Relies on zip::write::ZipWriter::start_file and std::io::Write::write_all:
/// on success exactly one entry was appended, named `name` and holding
/// `data`, and the writer stays clean; over an in-memory buffer, whether the
/// pair is accepted depends only on the entries so far, the name and the
/// data.  The container refuses a second entry under an existing name, so a
/// success tells the name was fresh.
#[verifier::external_body]
pub(crate) fn writer_add(w: &mut ArchiveWriter, name: &str, data: &[u8]) -> (r: Result<(), ()>)
    requires
        writer_clean(*old(w)),
    ensures
        r is Err <==> !writer_accepts(writer_entries(*old(w)), name@, data@),
        r is Ok ==> !has_name(writer_entries(*old(w)), name@),
        r is Ok ==> writer_entries(*final(w)) == writer_entries(*old(w)).push((name@, data@)),
        r is Ok ==> writer_clean(*final(w)),
{
    let options = zip::write::SimpleFileOptions::default().compression_method(
        zip::CompressionMethod::Deflated,
    ).unix_permissions(0o755).system(zip::System::Unix);
    if w.inner.start_file(name, options).is_err() {
        return Err(());
    }
    if std::io::Write::write_all(&mut w.inner, data).is_err() {
        return Err(());
    }
    Ok(())
}

/// Relies on zip::write::ZipWriter::finish: on a cleanly-built writer over an
/// in-memory buffer it cannot fail, and the finished bytes are the container
/// image of the entries written, a function of them alone.
#[verifier::external_body]
pub(crate) fn writer_finish(w: ArchiveWriter) -> (r: Result<Vec<u8>, ()>)
    requires
        writer_clean(w),
    ensures
        r is Ok,
        r matches Ok(out) ==> out@ == archive_bytes_of(writer_entries(w)),
{
    match w.inner.finish() {
        Ok(cursor) => Ok(cursor.into_inner()),
        Err(_) => Err(()),
    }
}

/// An archive reader over in-memory container bytes.  `reader_entries` names
/// the entries that can be read back from it.
#[verifier::external_body]
pub struct ArchiveReader {
    inner: zip::read::ZipArchive<std::io::Cursor<Vec<u8>>>,
}

/// The readable entries of `r`, as a name-to-payload map.
pub uninterp spec fn reader_entries(r: ArchiveReader) -> Map<Seq<char>, Seq<u8>>;

/// Whether `b` opens as a container at all.  A function of the bytes alone.
pub uninterp spec fn archive_opens(b: Seq<u8>) -> bool;

/// The listed entry names of `r`, in central-directory order.
pub uninterp spec fn reader_name_seq(r: ArchiveReader) -> Seq<Seq<char>>;

/// Relies on zip::read::ZipArchive::new: whether bytes open depends on them
/// alone; opening the container image of a uniquely-named entry sequence
/// succeeds and recovers exactly those entries.
#[verifier::external_body]
pub(crate) fn reader_open(bytes: &[u8]) -> (r: Result<ArchiveReader, ()>)
    ensures
        r is Err <==> !archive_opens(bytes@),
        r is Err ==> forall|es: Seq<(Seq<char>, Seq<u8>)>|
            !(unique_names(es) && bytes@ == #[trigger] archive_bytes_of(es)),
        r matches Ok(rd) ==> forall|es: Seq<(Seq<char>, Seq<u8>)>|
            (unique_names(es) && bytes@ == #[trigger] archive_bytes_of(es)) ==> (reader_entries(rd)
                == map_of(es) && reader_name_seq(rd) == names_seq(es)),
{
    match zip::read::ZipArchive::new(std::io::Cursor::new(bytes.to_vec())) {
        Ok(archive) => Ok(ArchiveReader { inner: archive }),
        Err(_) => Err(()),
    }
}

/// Relies on zip::read::ZipArchive::file_names: the decoded
/// central-directory names, in order.  On a foreign archive the decoding is
/// lossy, so listed names may repeat or differ from the names a lookup uses;
/// what the list holds for this library's own images comes from the opening
/// contract instead.
#[verifier::external_body]
pub(crate) fn reader_names(r: &ArchiveReader) -> (names: Vec<String>)
    ensures
        names@.map_values(|s: String| s@) == reader_name_seq(*r),
{
    r.inner.file_names().map(|s| s.to_string()).collect()
}

/// Relies on zip::read::ZipArchive::by_name and std::io::Read::read_to_end:
/// a readable entry returns its stored payload; a missing or unreadable one
/// reports failure.  Looking an entry up changes nothing.
#[verifier::external_body]
pub(crate) fn reader_entry(r: &mut ArchiveReader, name: &str) -> (res: Result<Vec<u8>, ()>)
    ensures
        reader_entries(*final(r)) == reader_entries(*old(r)),
        reader_name_seq(*final(r)) == reader_name_seq(*old(r)),
        res is Err ==> !reader_entries(*old(r)).dom().contains(name@),
        res matches Ok(v) ==> reader_entries(*old(r)).dom().contains(name@) && v@ == reader_entries(
            *old(r),
        )[name@],
{
    let mut out = Vec::new();
    match r.inner.by_name(name) {
        Ok(mut entry) => match std::io::Read::read_to_end(&mut entry, &mut out) {
            Ok(_) => Ok(out),
            Err(_) => Err(()),
        },
        Err(_) => Err(()),
    }
}

/// What a fresh container `out` holds: a uniquely-named entry sequence whose
/// map binds exactly `name` to `payload`.
pub open spec fn fresh_entries(
    name: Seq<char>,
    payload: Seq<u8>,
    es: Seq<(Seq<char>, Seq<u8>)>,
    out: Seq<u8>,
) -> bool {
    &&& unique_names(es)
    &&& out == archive_bytes_of(es)
    &&& map_of(es) == Map::<Seq<char>, Seq<u8>>::empty().insert(name, payload)
}

/// What a container `out` holds after saving `(name, payload)` over previous
/// bytes `existing`: a uniquely-named entry sequence whose map binds `name`
/// to `payload` and, wherever `existing` was itself a readable container,
/// keeps every one of its other entries.
pub open spec fn saved_entries(
    existing: Seq<u8>,
    name: Seq<char>,
    payload: Seq<u8>,
    es: Seq<(Seq<char>, Seq<u8>)>,
    out: Seq<u8>,
) -> bool {
    &&& unique_names(es)
    &&& out == archive_bytes_of(es)
    &&& map_of(es).dom().contains(name)
    &&& map_of(es)[name] == payload
    &&& forall|es0: Seq<(Seq<char>, Seq<u8>)>|
        (unique_names(es0) && existing == #[trigger] archive_bytes_of(es0)) ==> map_of(es)
            == map_of(es0).insert(name, payload)
}

/// Whether `out` is a fresh container holding exactly `name` with `payload`.
pub open spec fn fresh_container(name: Seq<char>, payload: Seq<u8>, out: Seq<u8>) -> bool {
    exists|es: Seq<(Seq<char>, Seq<u8>)>| fresh_entries(name, payload, es, out)
}

/// Whether `out` is a container holding `name` with `payload` and, wherever
/// `existing` was readable, all of its other entries.
pub open spec fn saved_container(
    existing: Seq<u8>,
    name: Seq<char>,
    payload: Seq<u8>,
    out: Seq<u8>,
) -> bool {
    exists|es: Seq<(Seq<char>, Seq<u8>)>| saved_entries(existing, name, payload, es, out)
}

/// Build a fresh single-entry container: `name` holding `payload`.  This
/// succeeds exactly when the container format accepts the entry (the format
/// bounds name lengths and sizes).
pub fn archive_create_bytes(name: &str, payload: &[u8]) -> (r: Result<Vec<u8>, SaveError>)
    ensures
        r is Ok <==> writer_accepts(Seq::<(Seq<char>, Seq<u8>)>::empty(), name@, payload@),
        r matches Ok(out) ==> fresh_container(name@, payload@, out@),
{
    let mut w = writer_new();
    proof {
        assert(!has_name(writer_entries(w), name@));
    }
    if writer_add(&mut w, name, payload).is_err() {
        return Err(SaveError::WriteFailure);
    }
    proof {
        lemma_map_of_push(Seq::empty(), name@, payload@);
        lemma_push_unique(Seq::empty(), name@, payload@);
    }
    match writer_finish(w) {
        Ok(out) => {
            proof {
                let es = writer_entries(w);
                assert(fresh_entries(name@, payload@, es, out@));
                assert(fresh_container(name@, payload@, out@));
            }
            Ok(out)
        },
        Err(_) => {
            proof {
                assert(false);
            }
            Err(SaveError::WriteFailure)
        },
    }
}

/// Save `payload` under `name` into a container whose previous bytes are
/// `existing`: every other entry is preserved, and an entry already named
/// `name` is fully overwritten.  Bytes that are no readable container are
/// treated as absent, as a full overwrite would leave them anyway.  A
/// readable container that this library did not write is preserved the same
/// way at run time, though the contract states preservation only for this
/// writer's own images; a listed entry that cannot be read back fails the
/// save rather than being dropped silently.
pub fn archive_upsert_bytes(existing: &[u8], name: &str, payload: &[u8]) -> (r: Result<
    Vec<u8>,
    SaveError,
>)
    ensures
        r matches Ok(out) ==> saved_container(existing@, name@, payload@, out@),
        !archive_opens(existing@) && writer_accepts(
            Seq::<(Seq<char>, Seq<u8>)>::empty(),
            name@,
            payload@,
        ) ==> r is Ok,
        forall|es0: Seq<(Seq<char>, Seq<u8>)>|
            (unique_names(es0) && existing@ == #[trigger] archive_bytes_of(es0)
                && writer_accepts_all(keep_others(es0, name@).push((name@, payload@)))) ==> r
                is Ok,
{
    let mut rd = match reader_open(existing) {
        Ok(rd) => rd,
        Err(_) => {
            match archive_create_bytes(name, payload) {
                Ok(out) => {
                    proof {
                        let es = choose|es: Seq<(Seq<char>, Seq<u8>)>|
                            fresh_entries(name@, payload@, es, out@);
                        assert forall|es0: Seq<(Seq<char>, Seq<u8>)>|
                            (unique_names(es0) && existing@ == #[trigger] archive_bytes_of(es0))
                                implies map_of(es) == map_of(es0).insert(name@, payload@) by {
                            assert(false);
                        }
                        assert(saved_entries(existing@, name@, payload@, es, out@));
                        assert(saved_container(existing@, name@, payload@, out@));
                    }
                    return Ok(out);
                },
                Err(e) => {
                    return Err(e);
                },
            }
        },
    };
    let ghost m0 = reader_entries(rd);
    let names = reader_names(&rd);
    let name_owned = name.to_owned();
    let mut w = writer_new();
    let mut i: usize = 0;
    proof {
        lemma_map_of_dom(writer_entries(w));
        assert forall|es0: Seq<(Seq<char>, Seq<u8>)>|
            (unique_names(es0) && existing@ == #[trigger] archive_bytes_of(es0)) implies
            writer_entries(w) == keep_others(es0.subrange(0, 0), name@) by {
            assert(es0.subrange(0, 0) =~= Seq::<(Seq<char>, Seq<u8>)>::empty());
            assert(keep_others(es0.subrange(0, 0), name@) =~= writer_entries(w));
        }
    }
    while i < names.len()
        invariant
            0 <= i <= names@.len(),
            archive_opens(existing@),
            reader_entries(rd) == m0,
            names@.map_values(|s: String| s@) == reader_name_seq(rd),
            forall|es0: Seq<(Seq<char>, Seq<u8>)>|
                (unique_names(es0) && existing@ == #[trigger] archive_bytes_of(es0)) ==> (m0
                    == map_of(es0) && reader_name_seq(rd) == names_seq(es0)),
            forall|es0: Seq<(Seq<char>, Seq<u8>)>|
                (unique_names(es0) && existing@ == #[trigger] archive_bytes_of(es0))
                    ==> writer_entries(w) == keep_others(es0.subrange(0, i as int), name@),
            name_owned@ == name@,
            writer_clean(w),
            unique_names(writer_entries(w)),
            forall|k: Seq<char>| #[trigger]
                map_of(writer_entries(w)).dom().contains(k) <==> (k != name@ && exists|j: int|
                    0 <= j < i && names@[j]@ == k),
            forall|k: Seq<char>| #[trigger]
                map_of(writer_entries(w)).dom().contains(k) ==> m0.dom().contains(k) && map_of(
                    writer_entries(w),
                )[k] == m0[k],
        decreases names@.len() - i,
    {
        let n_matches = names[i] == name_owned;
        if !n_matches {
            let ghost before = writer_entries(w);
            let data = match reader_entry(&mut rd, names[i].as_str()) {
                Ok(d) => d,
                Err(_) => {
                    proof {
                        assert forall|es0: Seq<(Seq<char>, Seq<u8>)>|
                            !(unique_names(es0) && existing@ == #[trigger] archive_bytes_of(
                                es0,
                            )) by {
                            if unique_names(es0) && existing@ == archive_bytes_of(es0) {
                                lemma_names_align(names@, es0);
                                lemma_map_of_dom(es0);
                                assert(0 <= i < es0.len() && es0[i as int].0 == names@[i as int]@);
                                assert(has_name(es0, names@[i as int]@));
                                assert(m0.dom().contains(names@[i as int]@));
                                assert(false);
                            }
                        }
                    }
                    return Err(SaveError::WriteFailure);
                },
            };
            if writer_add(&mut w, names[i].as_str(), data.as_slice()).is_err() {
                proof {
                    assert forall|es0: Seq<(Seq<char>, Seq<u8>)>|
                        (unique_names(es0) && existing@ == #[trigger] archive_bytes_of(es0)
                            && writer_accepts_all(
                            keep_others(es0, name@).push((name@, payload@)),
                        )) implies false by {
                        lemma_names_align(names@, es0);
                        assert(es0[i as int].0 == names@[i as int]@);
                        assert(es0[i as int].0 != name@);
                        lemma_map_of_value(es0, i as int);
                        assert(data@ == es0[i as int].1);
                        reveal(Seq::<(Seq<char>, Seq<u8>)>::filter);
                        let t = keep_others(es0, name@);
                        let full = t.push((name@, payload@));
                        assert(full.drop_last() =~= t);
                        assert(writer_accepts_all(t));
                        let rest = es0.subrange(i as int + 1, es0.len() as int);
                        assert(es0 =~= es0.subrange(0, i as int + 1) + rest);
                        lemma_keep_others_add(es0.subrange(0, i as int + 1), rest, name@);
                        assert(t == keep_others(es0.subrange(0, i as int + 1), name@)
                            + keep_others(rest, name@));
                        assert(es0.subrange(0, i as int + 1).drop_last() =~= es0.subrange(
                            0,
                            i as int,
                        ));
                        assert(es0.subrange(0, i as int + 1).last() == es0[i as int]);
                        assert(keep_others(es0.subrange(0, i as int + 1), name@) == keep_others(
                            es0.subrange(0, i as int),
                            name@,
                        ).push(es0[i as int]));
                        assert(before == keep_others(es0.subrange(0, i as int), name@));
                        let c = before.len() as int;
                        assert(t.subrange(0, c) =~= before);
                        assert(t[c] == es0[i as int]);
                        assert(0 <= c < t.len());
                        lemma_accepts_all_at(t, c);
                        assert(writer_accepts(before, es0[i as int].0, es0[i as int].1));
                        assert(writer_accepts(before, names@[i as int]@, data@));
                        assert(false);
                    }
                }
                return Err(SaveError::WriteFailure);
            }
            proof {
                lemma_map_of_push(before, names@[i as int]@, data@);
                lemma_push_unique(before, names@[i as int]@, data@);
                assert forall|es0: Seq<(Seq<char>, Seq<u8>)>|
                    (unique_names(es0) && existing@ == #[trigger] archive_bytes_of(es0)) implies
                    writer_entries(w) == keep_others(es0.subrange(0, i as int + 1), name@) by {
                    lemma_names_align(names@, es0);
                    assert(es0[i as int].0 == names@[i as int]@);
                    assert(es0[i as int].0 != name@);
                    lemma_map_of_value(es0, i as int);
                    assert(data@ == es0[i as int].1);
                    assert((es0[i as int].0, es0[i as int].1) == es0[i as int]);
                    reveal(Seq::<(Seq<char>, Seq<u8>)>::filter);
                    assert(es0.subrange(0, i as int + 1).drop_last() =~= es0.subrange(0, i as int));
                    assert(es0.subrange(0, i as int + 1).last() == es0[i as int]);
                    assert(keep_others(es0.subrange(0, i as int + 1), name@) == keep_others(
                        es0.subrange(0, i as int),
                        name@,
                    ).push(es0[i as int]));
                    assert(before == keep_others(es0.subrange(0, i as int), name@));
                    assert(writer_entries(w) == before.push((names@[i as int]@, data@)));
                }
                assert forall|k: Seq<char>| #[trigger]
                    map_of(writer_entries(w)).dom().contains(k) <==> (k != name@ && exists|j: int|
                        0 <= j < i + 1 && names@[j]@ == k) by {
                    if k == names@[i as int]@ {
                        assert(map_of(writer_entries(w)).dom().contains(k));
                        assert(0 <= i < i + 1 && names@[i as int]@ == k);
                    } else {
                        assert(map_of(writer_entries(w)).dom().contains(k) <==> map_of(
                            before,
                        ).dom().contains(k));
                        if exists|j: int| 0 <= j < i + 1 && names@[j]@ == k {
                            let j = choose|j: int| 0 <= j < i + 1 && names@[j]@ == k;
                            assert(j < i);
                            assert(0 <= j < i && names@[j]@ == k);
                        }
                    }
                }
            }
        } else {
            proof {
                assert(names@[i as int]@ == name@);
                assert forall|es0: Seq<(Seq<char>, Seq<u8>)>|
                    (unique_names(es0) && existing@ == #[trigger] archive_bytes_of(es0)) implies
                    writer_entries(w) == keep_others(es0.subrange(0, i as int + 1), name@) by {
                    lemma_names_align(names@, es0);
                    assert(es0[i as int].0 == name@);
                    reveal(Seq::<(Seq<char>, Seq<u8>)>::filter);
                    assert(es0.subrange(0, i as int + 1).drop_last() =~= es0.subrange(0, i as int));
                    assert(es0.subrange(0, i as int + 1).last() == es0[i as int]);
                    assert(keep_others(es0.subrange(0, i as int + 1), name@) == keep_others(
                        es0.subrange(0, i as int),
                        name@,
                    ));
                    assert(writer_entries(w) == keep_others(es0.subrange(0, i as int), name@));
                }
                assert forall|k: Seq<char>| #[trigger]
                    map_of(writer_entries(w)).dom().contains(k) <==> (k != name@ && exists|j: int|
                        0 <= j < i + 1 && names@[j]@ == k) by {
                    if k != name@ && (exists|j: int| 0 <= j < i + 1 && names@[j]@ == k) {
                        let j = choose|j: int| 0 <= j < i + 1 && names@[j]@ == k;
                        assert(j < i);
                        assert(0 <= j < i && names@[j]@ == k);
                    }
                }
            }
        }
        i = i + 1;
    }
    let ghost merged = writer_entries(w);
    proof {
        lemma_map_of_dom(merged);
        if has_name(merged, name@) {
            assert(map_of(merged).dom().contains(name@));
            assert(false);
        }
    }
    if writer_add(&mut w, name, payload).is_err() {
        proof {
            assert forall|es0: Seq<(Seq<char>, Seq<u8>)>|
                (unique_names(es0) && existing@ == #[trigger] archive_bytes_of(es0)
                    && writer_accepts_all(keep_others(es0, name@).push((name@, payload@))))
                implies false by {
                lemma_names_align(names@, es0);
                assert(es0.subrange(0, i as int) =~= es0);
                assert(merged == keep_others(es0, name@));
                let full = keep_others(es0, name@).push((name@, payload@));
                assert(full.drop_last() =~= keep_others(es0, name@));
                assert(full.last() == (name@, payload@));
                assert(writer_accepts(keep_others(es0, name@), name@, payload@));
                assert(writer_accepts(merged, name@, payload@));
                assert(false);
            }
        }
        return Err(SaveError::WriteFailure);
    }
    proof {
        lemma_map_of_push(merged, name@, payload@);
        lemma_push_unique(merged, name@, payload@);
    }
    match writer_finish(w) {
        Ok(out) => {
            proof {
                let es = writer_entries(w);
                assert(map_of(es) == map_of(merged).insert(name@, payload@));
                assert forall|es0: Seq<(Seq<char>, Seq<u8>)>|
                    (unique_names(es0) && existing@ == #[trigger] archive_bytes_of(es0)) implies
                    map_of(es) == map_of(es0).insert(name@, payload@) by {
                    assert(m0 == map_of(es0));
                    assert forall|k: Seq<char>|
                        map_of(es).dom().contains(k) <==> #[trigger] map_of(es0).insert(
                            name@,
                            payload@,
                        ).dom().contains(k) by {
                        if k == name@ {
                            assert(map_of(es).dom().contains(k));
                        } else {
                            assert(map_of(es).dom().contains(k) <==> map_of(
                                merged,
                            ).dom().contains(k));
                            if m0.dom().contains(k) {
                                lemma_map_of_dom(es0);
                                assert(has_name(es0, k));
                                let idx = choose|idx: int|
                                    0 <= idx < es0.len() && es0[idx].0 == k;
                                lemma_names_align(names@, es0);
                                assert(0 <= idx < names@.len() && names@[idx]@ == k);
                                assert(map_of(merged).dom().contains(k));
                            }
                            if map_of(merged).dom().contains(k) {
                                assert(m0.dom().contains(k));
                            }
                        }
                    }
                    assert forall|k: Seq<char>| #[trigger]
                        map_of(es).dom().contains(k) implies map_of(es)[k] == map_of(es0).insert(
                        name@,
                        payload@,
                    )[k] by {
                        if k != name@ {
                            assert(map_of(es)[k] == map_of(merged)[k]);
                            assert(map_of(merged)[k] == m0[k]);
                        }
                    }
                    assert(map_of(es) =~= map_of(es0).insert(name@, payload@));
                }
                assert(saved_entries(existing@, name@, payload@, es, out@));
                assert(saved_container(existing@, name@, payload@, out@));
            }
            Ok(out)
        },
        Err(_) => {
            proof {
                assert(false);
            }
            Err(SaveError::WriteFailure)
        },
    }
}

/// Load the payload stored under `name` from container bytes.  On the
/// container image of uniquely-named entries, the stored payload comes back
/// when the name is present, and its absence reports as not found; bytes that
/// are no readable container report as corrupt, never a panic.
pub fn archive_load_bytes(bytes: &[u8], name: &str) -> (r: Result<Vec<u8>, LoadError>)
    ensures
        r != Err::<Vec<u8>, LoadError>(LoadError::SchemaMismatch),
        !archive_opens(bytes@) ==> r == Err::<Vec<u8>, LoadError>(
            LoadError::CorruptOrIncompatible,
        ),
        forall|es: Seq<(Seq<char>, Seq<u8>)>|
            (unique_names(es) && bytes@ == #[trigger] archive_bytes_of(es)) ==> ({
                &&& (map_of(es).dom().contains(name@) ==> (r matches Ok(out) && out@ == map_of(
                    es,
                )[name@]))
                &&& (!map_of(es).dom().contains(name@) ==> r == Err::<Vec<u8>, LoadError>(
                    LoadError::NotFound,
                ))
            }),
{
    let mut rd = match reader_open(bytes) {
        Ok(rd) => rd,
        Err(_) => {
            return Err(LoadError::CorruptOrIncompatible);
        },
    };
    match reader_entry(&mut rd, name) {
        Ok(v) => Ok(v),
        Err(_) => Err(LoadError::NotFound),
    }
}

/// Law: a resource saved into a fresh container is retrievable from the
/// produced bytes, unchanged; the save is owed success whenever the container
/// format accepts the entry.
pub fn archive_save_then_load(name: &str, payload: &[u8]) -> (r: Result<Vec<u8>, SaveError>)
    ensures
        r is Ok <==> writer_accepts(Seq::<(Seq<char>, Seq<u8>)>::empty(), name@, payload@),
        r matches Ok(out) ==> out@ == payload@,
{
    let bytes = match archive_create_bytes(name, payload) {
        Ok(b) => b,
        Err(e) => {
            return Err(e);
        },
    };
    proof {
        let es = choose|es: Seq<(Seq<char>, Seq<u8>)>| fresh_entries(name@, payload@, es, bytes@);
        assert(map_of(es).dom().contains(name@));
    }
    match archive_load_bytes(bytes.as_slice(), name) {
        Ok(v) => Ok(v),
        Err(_) => {
            proof {
                assert(false);
            }
            Err(SaveError::WriteFailure)
        },
    }
}

/// A uniquely-named entry sequence whose map binds exactly one name is that
/// single entry.
pub proof fn lemma_fresh_is_singleton(
    es: Seq<(Seq<char>, Seq<u8>)>,
    name: Seq<char>,
    payload: Seq<u8>,
)
    requires
        unique_names(es),
        map_of(es) == Map::<Seq<char>, Seq<u8>>::empty().insert(name, payload),
    ensures
        es == seq![(name, payload)],
{
    lemma_map_of_dom(es);
    assert(map_of(es).dom().contains(name));
    assert(has_name(es, name));
    assert forall|i: int| 0 <= i < es.len() implies es[i].0 == name by {
        assert(0 <= i < es.len() && es[i].0 == es[i].0);
        assert(has_name(es, es[i].0));
        assert(map_of(es).dom().contains(es[i].0));
    }
    let i = choose|i: int| 0 <= i < es.len() && es[i].0 == name;
    if es.len() >= 2 {
        assert(es[0].0 == name && es[1].0 == name);
        assert(false);
    }
    assert(es.len() == 1);
    lemma_map_of_value(es, 0);
    assert(es[0].1 == payload);
    assert((es[0].0, es[0].1) == es[0]);
    assert(es =~= seq![(name, payload)]);
}

/// Law: two resources saved under different names into one container are
/// independently retrievable, each unchanged: the second save preserves the
/// first entry, and the pair of saves is owed success whenever the container
/// format accepts both entries in order.
pub fn archive_save_two_then_load(n1: &str, p1: &[u8], n2: &str, p2: &[u8]) -> (r: Result<
    (Vec<u8>, Vec<u8>),
    SaveError,
>)
    requires
        n1@ != n2@,
    ensures
        writer_accepts(Seq::<(Seq<char>, Seq<u8>)>::empty(), n1@, p1@) && writer_accepts(
            seq![(n1@, p1@)],
            n2@,
            p2@,
        ) ==> r is Ok,
        r matches Ok(pair) ==> pair.0@ == p1@ && pair.1@ == p2@,
{
    let first = match archive_create_bytes(n1, p1) {
        Ok(b) => b,
        Err(e) => {
            return Err(e);
        },
    };
    let both = match archive_upsert_bytes(first.as_slice(), n2, p2) {
        Ok(b) => b,
        Err(e) => {
            proof {
                if writer_accepts(Seq::<(Seq<char>, Seq<u8>)>::empty(), n1@, p1@)
                    && writer_accepts(seq![(n1@, p1@)], n2@, p2@) {
                    let es1 = choose|es: Seq<(Seq<char>, Seq<u8>)>|
                        fresh_entries(n1@, p1@, es, first@);
                    lemma_fresh_is_singleton(es1, n1@, p1@);
                    let single = seq![(n1@, p1@)];
                    reveal(Seq::<(Seq<char>, Seq<u8>)>::filter);
                    let t = keep_others(single, n2@);
                    assert(single.drop_last() =~= Seq::<(Seq<char>, Seq<u8>)>::empty());
                    assert(single.last() == (n1@, p1@));
                    assert(t == Seq::<(Seq<char>, Seq<u8>)>::empty().push((n1@, p1@)));
                    assert(t =~= single);
                    let full = t.push((n2@, p2@));
                    assert(writer_accepts_all(Seq::<(Seq<char>, Seq<u8>)>::empty()));
                    assert(writer_accepts_all(single));
                    assert(writer_accepts_all(t));
                    assert(full.drop_last() =~= t);
                    assert(full.last() == (n2@, p2@));
                    assert(writer_accepts_all(full));
                    assert(writer_accepts_all(keep_others(es1, n2@).push((n2@, p2@))));
                    assert(false);
                }
            }
            return Err(e);
        },
    };
    proof {
        let es1 = choose|es: Seq<(Seq<char>, Seq<u8>)>| fresh_entries(n1@, p1@, es, first@);
        let es2 = choose|es: Seq<(Seq<char>, Seq<u8>)>|
            saved_entries(first@, n2@, p2@, es, both@);
        assert(first@ == archive_bytes_of(es1));
        assert(map_of(es2) == map_of(es1).insert(n2@, p2@));
        lemma_independent_entries(Map::empty(), n1@, p1@, n2@, p2@);
        assert(map_of(es2).dom().contains(n1@) && map_of(es2)[n1@] == p1@);
        assert(map_of(es2).dom().contains(n2@) && map_of(es2)[n2@] == p2@);
    }
    let a = match archive_load_bytes(both.as_slice(), n1) {
        Ok(v) => v,
        Err(_) => {
            proof {
                assert(false);
            }
            return Err(SaveError::WriteFailure);
        },
    };
    let b = match archive_load_bytes(both.as_slice(), n2) {
        Ok(v) => v,
        Err(_) => {
            proof {
                assert(false);
            }
            return Err(SaveError::WriteFailure);
        },
    };
    Ok((a, b))
}

/// Law: two resources saved under different names into one container are
/// independently retrievable: neither save disturbs the other's payload.
pub proof fn lemma_independent_entries(
    m: Map<Seq<char>, Seq<u8>>,
    n1: Seq<char>,
    p1: Seq<u8>,
    n2: Seq<char>,
    p2: Seq<u8>,
)
    requires
        n1 != n2,
    ensures
        m.insert(n1, p1).insert(n2, p2).dom().contains(n1),
        m.insert(n1, p1).insert(n2, p2).dom().contains(n2),
        m.insert(n1, p1).insert(n2, p2)[n1] == p1,
        m.insert(n1, p1).insert(n2, p2)[n2] == p2,
{
}

/// Law: saving twice under one name is a full overwrite: only the second
/// payload remains, with no trace of the first.
pub proof fn lemma_overwrite_wins(
    m: Map<Seq<char>, Seq<u8>>,
    n: Seq<char>,
    p1: Seq<u8>,
    p2: Seq<u8>,
)
    ensures
        m.insert(n, p1).insert(n, p2) == m.insert(n, p2),
{
    assert(m.insert(n, p1).insert(n, p2) =~= m.insert(n, p2));
}

} // verus!
