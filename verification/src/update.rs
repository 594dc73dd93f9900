use crate::install::{join_url, joined_url};
use crate::model::{opt_text, PackError, TableRole};
use crate::populate::{populate_db, populate_outcome};
use crate::store::{PackageStore, StoreView, Tables, TablesView};
use vstd::prelude::*;
use vstd::utf8::{decode_utf8, valid_utf8};

verus! {

/// The error of an input or output operation of the standard library.
#[verifier::external_type_specification]
#[verifier::external_body]
pub struct ExIoError(std::io::Error);

/// What a gzip stream unpacks to, or nothing for bytes that are none.
pub uninterp spec fn gunzipped(data: Seq<u8>) -> Option<Seq<u8>>;

/// Reads a `flate2::read::GzDecoder` over the bytes to its end. Whether
/// that succeeds and what it yields is a function of the bytes alone,
/// named `gunzipped`.
#[verifier::external_body]
fn gunzip(data: &[u8]) -> (r: Result<Vec<u8>, std::io::Error>)
    ensures
        match r {
            Ok(out) => gunzipped(data@) == Some(out@),
            Err(_) => gunzipped(data@) is None,
        },
{
    let mut out = Vec::new();
    std::io::Read::read_to_end(&mut flate2::read::GzDecoder::new(data), &mut out)?;
    Ok(out)
}

/// `String::from_utf8` gives the text that the bytes encode if they are
/// valid UTF-8, and fails if they are not.
#[verifier::external_body]
fn text_from_utf8(bytes: Vec<u8>) -> (r: Option<String>)
    ensures
        match r {
            Some(text) => valid_utf8(bytes@) && text@ == decode_utf8(bytes@),
            None => !valid_utf8(bytes@),
        },
{
    String::from_utf8(bytes).ok()
}

/// The text of a compressed package index, if the bytes are one.
pub open spec fn index_text(compressed: Seq<u8>) -> Option<Seq<char>> {
    match gunzipped(compressed) {
        Some(bytes) => if valid_utf8(bytes) {
            Some(decode_utf8(bytes))
        } else {
            None
        },
        None => None,
    }
}

/// The database with nothing on offer.
pub open spec fn without_offers(v: StoreView) -> StoreView {
    StoreView { available: TablesView::empty(), ..v }
}

/// Where the package index lies below the address of a mirror.
pub open spec fn index_path() -> Seq<char> {
    "dists/bullseye/main/binary-all/Packages.gz"@
}

/// The address of the package index of the mirror at `mirror`, if that
/// address can be read.
pub fn index_url(mirror: &str) -> (url: Option<String>)
    ensures
        opt_text(url) == joined_url(mirror@, index_path()),
{
    join_url(mirror, "dists/bullseye/main/binary-all/Packages.gz")
}

/// Replaces what is on offer by what a freshly fetched package index
/// holds: the old rows go, all of them, and the index, unpacked, is stored
/// in their place. An index that cannot be unpacked, read or stored leaves
/// nothing on offer.
pub fn update(store: &mut PackageStore, compressed: &[u8]) -> (r: Result<(), PackError>)
    requires
        old(store)@.wf(),
    ensures
        final(store)@.wf(),
        match index_text(compressed@) {
            Some(text) => match populate_outcome(TablesView::empty(), text) {
                Ok(t) => r is Ok && final(store)@ == StoreView { available: t, ..old(store)@ },
                Err(e) => r matches Err(x) && x == e && final(store)@ == without_offers(
                    old(store)@,
                ),
            },
            None => r matches Err(x) && x == PackError::Parse && final(store)@ == without_offers(
                old(store)@,
            ),
        },
{
    store.available = Tables::new();
    let bytes = match gunzip(compressed) {
        Ok(bytes) => bytes,
        Err(_) => {
            return Err(PackError::Parse);
        },
    };
    let text = match text_from_utf8(bytes) {
        Some(text) => text,
        None => {
            return Err(PackError::Parse);
        },
    };
    populate_db(store, text.as_str(), TableRole::Available)
}

} // verus!
