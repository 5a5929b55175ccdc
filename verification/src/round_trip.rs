//! What a written archive reads back as: its metadata gives the entries
//! that were laid out, and each entry's data gives the file that was packed.

use vstd::prelude::*;
use crate::cipher::{lemma_shift_up_down, shift_up, sjis_decoded, sjis_encoded};
use crate::codec::{
    be_bytes, be_value, header_value, le_bytes, lemma_u32_bytes_round_trip,
    parse_archive, parse_entries, record_at, record_bytes, record_in_bounds, record_name,
    EntryModel, Parsed,
};
use crate::compress::{
    buffer_fits, decompress_capacity, lemma_payload_never_longer, lzss_decompressed, payload,
};
use crate::pack::{
    archive_bytes, archive_len, archive_name, data_block, data_len, data_offset, fits,
    lemma_compression_sentinel, lemma_fits_metadata_end, lemma_lengths_grow, metadata_block,
    metadata_end, metadata_len, packable, packed, packed_all, PackModel, SourceModel,
};
use crate::error::ArcError;
use crate::pack::pack_result;
use crate::unpack::{
    extract_error, extracted, stored, stored_in_bounds, unpack_result, Extracted, UnpackedFile,
};

verus! {

/// The record of file `k` as the archive holds it.
pub open spec fn record_of(files: Seq<PackModel>, k: int) -> Seq<u8> {
    record_bytes(
        files[k].encrypted_name,
        files[k].compressed_data.len() as u32,
        files[k].original_size,
        data_offset(files, k) as u32,
    )
}

/// The entry that the archive holds for file `k`, whose name in clear is
/// `name`.
pub open spec fn entry_of(files: Seq<PackModel>, k: int, name: Seq<char>) -> EntryModel {
    EntryModel {
        encrypted_name: files[k].encrypted_name,
        name,
        compressed_size: files[k].compressed_data.len() as u32,
        original_size: files[k].original_size,
        offset: data_offset(files, k) as u32,
    }
}

/// The entries that the archive holds, in order.
pub open spec fn entries_of(files: Seq<PackModel>, names: Seq<Seq<char>>) -> Seq<EntryModel> {
    Seq::new(files.len(), |k: int| entry_of(files, k, names[k]))
}

/// Whether `names` are the names of `files` in clear.
pub open spec fn deciphers_to(files: Seq<PackModel>, names: Seq<Seq<char>>) -> bool {
    &&& names.len() == files.len()
    &&& forall|k: int|
        0 <= k < files.len() ==> sjis_decoded(shift_up((#[trigger] files[k]).encrypted_name))
            == Some(names[k])
}

/// A record holds its fields where the format puts them.
pub proof fn lemma_record_fields(name: Seq<u8>, c: u32, o: u32, d: u32)
    requires
        name.len() <= 255,
    ensures
        record_bytes(name, c, o, d).len() == 13 + name.len(),
        record_bytes(name, c, o, d)[0] == name.len(),
        record_bytes(name, c, o, d).subrange(1, 1 + name.len() as int) == name,
        be_value(record_bytes(name, c, o, d).subrange(
            1 + name.len() as int,
            5 + name.len() as int,
        )) == c,
        be_value(record_bytes(name, c, o, d).subrange(
            5 + name.len() as int,
            9 + name.len() as int,
        )) == o,
        be_value(record_bytes(name, c, o, d).subrange(
            9 + name.len() as int,
            13 + name.len() as int,
        )) == d,
{
    let r = record_bytes(name, c, o, d);
    let n = name.len() as int;
    lemma_u32_bytes_round_trip(c);
    lemma_u32_bytes_round_trip(o);
    lemma_u32_bytes_round_trip(d);
    assert(r.len() == 13 + n);
    assert(r.subrange(1, 1 + n) =~= name);
    assert(r.subrange(1 + n, 5 + n) =~= be_bytes(c));
    assert(r.subrange(5 + n, 9 + n) =~= be_bytes(o));
    assert(r.subrange(9 + n, 13 + n) =~= be_bytes(d));
}

/// The blocks are as long as the lengths counted for them.
pub proof fn lemma_block_lens(files: Seq<PackModel>, k: int)
    requires
        0 <= k <= files.len(),
    ensures
        metadata_block(files, k).len() == metadata_len(files, k),
        data_block(files, k).len() == data_len(files, k),
    decreases k,
{
    if k > 0 {
        lemma_block_lens(files, k - 1);
        assert(record_of(files, k - 1).len() == 13 + files[k - 1].encrypted_name.len());
    }
}

/// The record of file `k` stands in the metadata block where the records
/// before it end.
pub proof fn lemma_record_in_block(files: Seq<PackModel>, k: int, m: int)
    requires
        0 <= k < m <= files.len(),
    ensures
        metadata_len(files, k + 1) <= metadata_len(files, m),
        metadata_block(files, m).subrange(metadata_len(files, k), metadata_len(files, k + 1))
            == record_of(files, k),
    decreases m,
{
    lemma_block_lens(files, m - 1);
    lemma_block_lens(files, m);
    lemma_lengths_grow(files, 0, k);
    if m == k + 1 {
        assert(metadata_block(files, m).subrange(
            metadata_len(files, k),
            metadata_len(files, k + 1),
        ) =~= record_of(files, k));
    } else {
        lemma_record_in_block(files, k, m - 1);
        assert(metadata_block(files, m).subrange(
            metadata_len(files, k),
            metadata_len(files, k + 1),
        ) =~= metadata_block(files, m - 1).subrange(
            metadata_len(files, k),
            metadata_len(files, k + 1),
        ));
    }
}

/// The stored bytes of file `k` stand in the data block where those of the
/// files before it end.
pub proof fn lemma_data_in_block(files: Seq<PackModel>, k: int, m: int)
    requires
        0 <= k < m <= files.len(),
    ensures
        data_len(files, k + 1) <= data_len(files, m),
        data_block(files, m).subrange(data_len(files, k), data_len(files, k + 1))
            == files[k].compressed_data,
    decreases m,
{
    lemma_block_lens(files, m - 1);
    lemma_block_lens(files, m);
    lemma_lengths_grow(files, 0, k);
    if m == k + 1 {
        assert(data_block(files, m).subrange(data_len(files, k), data_len(files, k + 1))
            =~= files[k].compressed_data);
    } else {
        lemma_data_in_block(files, k, m - 1);
        assert(data_block(files, m).subrange(data_len(files, k), data_len(files, k + 1))
            =~= data_block(files, m - 1).subrange(data_len(files, k), data_len(files, k + 1)));
    }
}

/// The archive is as long as its layout says, and its header gives the end
/// of the metadata.
pub proof fn lemma_archive_shape(files: Seq<PackModel>)
    requires
        fits(files),
    ensures
        archive_bytes(files).len() == archive_len(files),
        4 <= metadata_end(files) <= u32::MAX,
        metadata_end(files) <= archive_len(files),
        header_value(archive_bytes(files)) == metadata_end(files),
{
    let n = files.len() as int;
    lemma_block_lens(files, n);
    lemma_lengths_grow(files, 0, n);
    lemma_fits_metadata_end(files);
    let end = metadata_end(files) as u32;
    lemma_u32_bytes_round_trip(end);
    assert(archive_bytes(files).subrange(0, 4) =~= le_bytes(end));
}

/// From where the records of the first `k` files end, the metadata of a
/// written archive reads as the entries of the files that remain.
pub proof fn lemma_parse_from(files: Seq<PackModel>, names: Seq<Seq<char>>, k: int)
    requires
        fits(files),
        deciphers_to(files, names),
        0 <= k <= files.len(),
    ensures
        parse_entries(
            archive_bytes(files),
            4 + metadata_len(files, k),
            metadata_end(files),
        ) == Parsed::Entries(entries_of(files, names).subrange(k, files.len() as int)),
    decreases files.len() - k,
{
    let n = files.len() as int;
    let a = archive_bytes(files);
    let all = entries_of(files, names);
    let pos = 4 + metadata_len(files, k);
    lemma_archive_shape(files);
    lemma_block_lens(files, n);
    lemma_lengths_grow(files, 0, k);
    if k == n {
        assert(all.subrange(k, n) =~= Seq::<EntryModel>::empty());
    } else {
        lemma_record_in_block(files, k, n);
        lemma_lengths_grow(files, 0, n);
        let f = files[k];
        let len = f.encrypted_name.len() as int;
        let c = f.compressed_data.len() as u32;
        let d = data_offset(files, k) as u32;
        let r = record_of(files, k);
        lemma_record_fields(f.encrypted_name, c, f.original_size, d);
        assert(a.subrange(pos, pos + 13 + len) =~= metadata_block(files, n).subrange(
            metadata_len(files, k),
            metadata_len(files, k + 1),
        ));
        assert(a.subrange(pos, pos + 13 + len) == r);
        assert(a[pos] == r[0]);
        assert(record_in_bounds(a, pos));
        assert(a.subrange(pos + 1, pos + 1 + len) =~= r.subrange(1, 1 + len));
        assert(a.subrange(pos + 1 + len, pos + 5 + len) =~= r.subrange(1 + len, 5 + len));
        assert(a.subrange(pos + 5 + len, pos + 9 + len) =~= r.subrange(5 + len, 9 + len));
        assert(a.subrange(pos + 9 + len, pos + 13 + len) =~= r.subrange(9 + len, 13 + len));
        assert(record_name(a, pos) == f.encrypted_name);
        assert(record_at(a, pos, names[k]) == entry_of(files, k, names[k]));
        lemma_parse_from(files, names, k + 1);
        assert(seq![all[k]] + all.subrange(k + 1, n) =~= all.subrange(k, n));
    }
}

/// The metadata of a written archive reads back as the entries that were
/// laid out: every name, both sizes, and each offset as the end of the
/// metadata plus the stored sizes of the entries before it.
pub proof fn lemma_metadata_round_trip(files: Seq<PackModel>, names: Seq<Seq<char>>)
    requires
        fits(files),
        deciphers_to(files, names),
    ensures
        parse_archive(archive_bytes(files)) == Parsed::Entries(entries_of(files, names)),
        forall|i: int|
            0 <= i < files.len() ==> (#[trigger] entries_of(files, names)[i]).offset
                == metadata_end(files) + data_len(files, i),
{
    lemma_archive_shape(files);
    lemma_parse_from(files, names, 0);
    let all = entries_of(files, names);
    assert(all.subrange(0, files.len() as int) =~= all);
    assert forall|i: int| 0 <= i < files.len() implies (#[trigger] all[i]).offset == metadata_end(
        files,
    ) + data_len(files, i) by {
        lemma_lengths_grow(files, i, files.len() as int);
        lemma_lengths_grow(files, 0, i);
    }
}

/// The data of each entry of a written archive lies inside it and is what
/// was stored for the file.
pub proof fn lemma_stored_round_trip(files: Seq<PackModel>, names: Seq<Seq<char>>, i: int)
    requires
        fits(files),
        0 <= i < files.len(),
    ensures
        stored_in_bounds(archive_bytes(files), entry_of(files, i, names[i])),
        stored(archive_bytes(files), entry_of(files, i, names[i])) == files[i].compressed_data,
{
    let n = files.len() as int;
    let a = archive_bytes(files);
    lemma_archive_shape(files);
    lemma_block_lens(files, n);
    lemma_data_in_block(files, i, n);
    lemma_lengths_grow(files, 0, i);
    lemma_lengths_grow(files, 0, n);
    let from = data_offset(files, i);
    let to = metadata_end(files) + data_len(files, i + 1);
    assert(a.subrange(from, to) =~= data_block(files, n).subrange(
        data_len(files, i),
        data_len(files, i + 1),
    ));
}

/// In a written archive the entry of each file gives the file's length as
/// its original size and the length of what was stored as its compressed
/// size, and its data is what was stored. The two sizes are equal exactly
/// where the file's own bytes were stored: wherever compression did not make
/// the file strictly shorter.
pub proof fn lemma_written_entry(
    files: Seq<SourceModel>,
    compress: bool,
    names: Seq<Seq<char>>,
    i: int,
)
    requires
        forall|j: int| 0 <= j < files.len() ==> packable(#[trigger] files[j]),
        fits(packed_all(files, compress)),
        names.len() == files.len(),
        0 <= i < files.len(),
    ensures
        ({
            let ps = packed_all(files, compress);
            let e = entry_of(ps, i, names[i]);
            &&& e.original_size == files[i].data.len()
            &&& e.compressed_size == payload(files[i].data, compress).len()
            &&& e.compressed_size <= e.original_size
            &&& e.offset == metadata_end(ps) + data_len(ps, i)
            &&& stored_in_bounds(archive_bytes(ps), e)
            &&& stored(archive_bytes(ps), e) == payload(files[i].data, compress)
            &&& (e.compressed_size == e.original_size <==> stored(archive_bytes(ps), e)
                == files[i].data)
        }),
{
    let ps = packed_all(files, compress);
    assert(packable(files[i]));
    assert(ps[i] == packed(files[i], compress));
    lemma_compression_sentinel(files[i], compress);
    lemma_stored_round_trip(ps, names, i);
    lemma_lengths_grow(ps, 0, i);
    lemma_lengths_grow(ps, 0, ps.len() as int);
    assert(data_offset(ps, i) <= u32::MAX);
    assert(ps[i].compressed_data.len() <= u32::MAX);
}

/// Whether the charset gives the archive name of `f` back after encoding it.
pub open spec fn name_survives(f: SourceModel) -> bool {
    sjis_decoded(sjis_encoded(archive_name(f.path)).unwrap()) == Some(archive_name(f.path))
}

/// Whether the decompressor gives the bytes of `f` back wherever they were
/// stored compressed.
pub open spec fn data_survives(f: SourceModel, compress: bool) -> bool {
    payload(f.data, compress) != f.data ==> buffer_fits(decompress_capacity(f.data.len() as u32))
        && lzss_decompressed(payload(f.data, compress), decompress_capacity(f.data.len() as u32))
        == Ok::<Seq<u8>, Seq<char>>(f.data)
}

/// The archive names of the files, in order.
pub open spec fn archive_names(files: Seq<SourceModel>) -> Seq<Seq<char>> {
    files.map_values(|f: SourceModel| archive_name(f.path))
}

/// Packing and then unpacking gives every file back, under its archive name
/// and in the order given, with or without compression: for files that fit
/// the format, whose names the charset gives back, and whose bytes the
/// decompressor gives back where they were stored compressed.
pub proof fn lemma_round_trip(files: Seq<SourceModel>, compress: bool)
    requires
        forall|i: int| 0 <= i < files.len() ==> packable(#[trigger] files[i]),
        forall|i: int| 0 <= i < files.len() ==> name_survives(#[trigger] files[i]),
        forall|i: int| 0 <= i < files.len() ==> data_survives(#[trigger] files[i], compress),
        fits(packed_all(files, compress)),
    ensures
        parse_archive(archive_bytes(packed_all(files, compress))) == Parsed::Entries(
            entries_of(packed_all(files, compress), archive_names(files)),
        ),
        forall|i: int|
            0 <= i < files.len() ==> {
                let e = #[trigger] entries_of(packed_all(files, compress), archive_names(files))[i];
                &&& e.name == archive_name(files[i].path)
                &&& extracted(archive_bytes(packed_all(files, compress)), e) == Extracted::Data(
                    files[i].data,
                )
            },
{
    let ps = packed_all(files, compress);
    let names = archive_names(files);
    let a = archive_bytes(ps);
    assert forall|k: int| 0 <= k < ps.len() implies sjis_decoded(
        shift_up((#[trigger] ps[k]).encrypted_name),
    ) == Some(names[k]) by {
        assert(name_survives(files[k]));
        lemma_shift_up_down(sjis_encoded(archive_name(files[k].path)).unwrap());
    }
    lemma_metadata_round_trip(ps, names);
    assert forall|i: int| 0 <= i < files.len() implies {
        let e = #[trigger] entries_of(ps, names)[i];
        &&& e.name == archive_name(files[i].path)
        &&& extracted(a, e) == Extracted::Data(files[i].data)
    } by {
        let e = entries_of(ps, names)[i];
        let f = files[i];
        lemma_stored_round_trip(ps, names, i);
        lemma_archive_shape(ps);
        lemma_lengths_grow(ps, i + 1, ps.len() as int);
        lemma_lengths_grow(ps, 0, i);
        assert(packable(f));
        assert(data_survives(f, compress));
        assert(ps[i] == packed(f, compress));
        assert(stored(a, e) == payload(f.data, compress));
        assert(e.original_size == f.data.len());
        lemma_payload_never_longer(f.data, compress);
    }
}

/// Whatever packing returns as an archive, unpacking that archive returns
/// the files that were packed: as many, in the same order, each under its
/// archive name and with its bytes. This holds with and without compression,
/// for names that the charset gives back and bytes that the decompressor
/// gives back where they were stored compressed.
pub proof fn lemma_unpack_of_pack(
    files: Seq<SourceModel>,
    compress: bool,
    packed: Result<Vec<u8>, ArcError>,
    unpacked: Result<Vec<UnpackedFile>, ArcError>,
)
    requires
        pack_result(packed, files, compress),
        packed is Ok,
        unpack_result(unpacked, packed.unwrap()@),
        forall|i: int| 0 <= i < files.len() ==> name_survives(#[trigger] files[i]),
        forall|i: int| 0 <= i < files.len() ==> data_survives(#[trigger] files[i], compress),
    ensures
        unpacked is Ok,
        unpacked.unwrap()@.len() == files.len(),
        forall|i: int|
            0 <= i < files.len() ==> (#[trigger] unpacked.unwrap()@[i]).name@ == archive_name(
                files[i].path,
            ) && unpacked.unwrap()@[i].data@ == files[i].data,
{
    let bytes = packed.unwrap()@;
    let es = entries_of(packed_all(files, compress), archive_names(files));
    lemma_round_trip(files, compress);
    assert(parse_archive(bytes) == Parsed::Entries(es));
    match unpacked {
        Ok(out) => {
            assert forall|i: int| 0 <= i < files.len() implies (#[trigger] out@[i]).name@
                == archive_name(files[i].path) && out@[i].data@ == files[i].data by {
                assert(es[i].name == archive_name(files[i].path));
                assert(extracted(bytes, es[i]) == Extracted::Data(files[i].data));
            }
        },
        Err(e) => {
            let i = choose|i: int|
                0 <= i < es.len() && extract_error(e, extracted(bytes, #[trigger] es[i]));
            assert(extracted(bytes, es[i]) == Extracted::Data(files[i].data));
        },
    }
}

} // verus!
