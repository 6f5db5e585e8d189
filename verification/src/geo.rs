//! Countries of server addresses, from a MaxMind GeoIP2 City database.

use vstd::prelude::*;

use crate::protocol::PeerAddr;

verus! {

#[verifier::external_type_specification]
#[verifier::external_body]
pub struct ExMaxmindError(maxminddb::MaxMindDbError);

/// A reader of a GeoIP2 City database. The reader is held in a field that
/// Verus does not see: it refuses to declare `maxminddb::Reader`, whose
/// parameter is bound by `AsRef`.
#[verifier::external_body]
pub struct GeoReader {
    reader: maxminddb::Reader<Vec<u8>>,
}

/// An opened GeoIP2 City database, with the bytes it was read from.
pub struct Geo {
    reader: GeoReader,
    bytes: Ghost<Seq<u8>>,
}

impl View for Geo {
    type V = Seq<u8>;

    /// The bytes of the database.
    closed spec fn view(&self) -> Seq<u8> {
        self.bytes@
    }
}

/// Whether `maxminddb::Reader::from_source` accepts `bytes` as a database.
pub uninterp spec fn maxmind_accepts(bytes: Seq<u8>) -> bool;

/// Opens a database from its bytes with `maxminddb::Reader::from_source`;
/// claimed: it succeeds exactly when the bytes are accepted.
#[verifier::external_body]
fn reader_from_bytes(bytes: Vec<u8>) -> (r: Result<GeoReader, maxminddb::MaxMindDbError>)
    ensures
        r is Ok <==> maxmind_accepts(bytes@),
{
    Ok(GeoReader { reader: maxminddb::Reader::from_source(bytes)? })
}

/// The ISO country code that the GeoIP2 City database `db` holds for the
/// address with bytes `ip`, or nothing when it holds none or the lookup or
/// the decoding fails.
pub uninterp spec fn maxmind_country(db: Seq<u8>, ip: Seq<u8>) -> Option<Seq<char>>;

/// The code shown for an address whose country is not known.
pub open spec fn unknown_country() -> Seq<char> {
    "??"@
}

/// Looks `ip` up with `maxminddb::Reader::lookup` and decodes the record
/// as a `geoip2::City`, giving its country's ISO code. Claimed: the code is
/// `maxmind_country` of the database's bytes and the address, and there is
/// none exactly when that gives none (a `Geo`'s reader is always the one
/// `from_source` made of the bytes it records: only `Geo::from_bytes` makes
/// one, and its fields are private).
#[verifier::external_body]
fn lookup_country_code(geo: &Geo, ip: &[u8]) -> (r: Result<
    Option<String>,
    maxminddb::MaxMindDbError,
>)
    requires
        ip@.len() == 4 || ip@.len() == 16,
    ensures
        match r {
            Ok(Some(code)) => maxmind_country(geo@, ip@) == Some(code@),
            _ => maxmind_country(geo@, ip@) is None,
        },
{
    let found = match <[u8; 4]>::try_from(ip) {
        Ok(v4) => geo.reader.reader.lookup(v4.into()),
        Err(_) => geo.reader.reader.lookup(<[u8; 16]>::try_from(ip).unwrap_or_default().into()),
    };
    let city = found?.decode::<maxminddb::geoip2::City>()?;
    Ok(city.and_then(|c| c.country.iso_code.map(|code| code.to_string())))
}

/// The code shown for `ip` with the database `db`: its country's ISO code,
/// or `??`.
pub open spec fn spec_country(db: Seq<u8>, ip: Seq<u8>) -> Seq<char> {
    match maxmind_country(db, ip) {
        Some(code) => code,
        None => unknown_country(),
    }
}

/// The country code shown for a lookup's outcome: the code found, or `??`
/// when there is none or the lookup failed.
pub fn country_shown(found: Result<Option<String>, maxminddb::MaxMindDbError>) -> (r: String)
    ensures
        r@ == match found {
            Ok(Some(code)) => code@,
            _ => unknown_country(),
        },
{
    match found {
        Ok(Some(code)) => code,
        _ => "??".to_string(),
    }
}

impl Geo {
    /// The database held in `bytes`, when they are one.
    pub fn from_bytes(bytes: Vec<u8>) -> (r: Option<Geo>)
        ensures
            r is Some <==> maxmind_accepts(bytes@),
            r matches Some(g) ==> g@ == bytes@,
    {
        let ghost b = bytes@;
        match reader_from_bytes(bytes) {
            Ok(reader) => Some(Geo { reader, bytes: Ghost(b) }),
            Err(_) => None,
        }
    }

    /// The country code of `ip`, or `??`.
    pub fn country(&self, ip: &PeerAddr) -> (r: String)
        requires
            ip.ip@.len() == 4 || ip.ip@.len() == 16,
        ensures
            r@ == spec_country(self@, ip.ip@),
    {
        country_shown(lookup_country_code(self, ip.ip.as_slice()))
    }
}

/// The country code of `ip` from the database, if one was opened, else `??`.
pub fn lookup(geo: Option<&Geo>, ip: &PeerAddr) -> (r: String)
    requires
        ip.ip@.len() == 4 || ip.ip@.len() == 16,
    ensures
        r@ == match geo {
            Some(g) => spec_country(g@, ip.ip@),
            None => unknown_country(),
        },
{
    match geo {
        Some(g) => g.country(ip),
        None => "??".to_string(),
    }
}

} // verus!
