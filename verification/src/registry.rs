//! Which formats there are, and how their files are told.
//!
//! Files are told by their extensions and, where a format has a signature that no other content
//! is likely to have, by their first bytes.

use vstd::prelude::*;

use crate::pcx;
use crate::sgi;

verus! {

/// The formats that are decoded.
#[derive(Debug, Clone, Copy, PartialEq, Eq, Structural)]
pub enum Format {
    OpenRaster,
    Pcx,
    Psd,
    Sgi,
    Wbmp,
    Xbm,
}

/// The first bytes of files of a format. Only those bits count that are set in the mask, if
/// there is one.
#[derive(Debug, PartialEq, Eq)]
pub struct Signature {
    pub bytes: Vec<u8>,
    pub mask: Option<Vec<u8>>,
}

/// A file extension, the format that it stands for, and the signatures of the format that come
/// with it.
#[derive(Debug, PartialEq, Eq)]
pub struct Registration {
    pub extension: &'static str,
    pub format: Format,
    pub signatures: Vec<Signature>,
}

/// A signature: its bytes and its mask.
pub type SignatureView = (Seq<u8>, Option<Seq<u8>>);

/// A registration: extension, format and signatures.
pub type RegistrationView = (Seq<char>, Format, Seq<SignatureView>);

impl View for Signature {
    type V = SignatureView;

    open spec fn view(&self) -> SignatureView {
        (
            self.bytes@,
            match self.mask {
                Some(mask) => Some(mask@),
                None => None,
            },
        )
    }
}

impl View for Registration {
    type V = RegistrationView;

    open spec fn view(&self) -> RegistrationView {
        (self.extension@, self.format, self.signatures@.map_values(|s: Signature| s@))
    }
}

/// The signatures of SGI files. The signature proper is just `01 da`, but that is short, and the
/// two fields that follow it are constrained well enough to be matched as well.
pub open spec fn sgi_signatures() -> Seq<SignatureView> {
    seq![
        (seq![0x01u8, 0xdau8, 0x00u8, 0x01u8], None),
        (seq![0x01u8, 0xdau8, 0x01u8, 0x01u8], None),
        (seq![0x01u8, 0xdau8, 0x00u8, 0x02u8], None),
        (seq![0x01u8, 0xdau8, 0x01u8, 0x02u8], None),
    ]
}

/// The signature of PCX files: a byte, and a version number below eight.
pub open spec fn pcx_signatures() -> Seq<SignatureView> {
    seq![(seq![0x0au8, 0x00u8], Some(seq![0xffu8, 0xf8u8]))]
}

/// What is registered.
///
/// OpenRaster files are ZIP archives, and have no simple signature to tell them from others. SGI
/// files mostly have the extension `rgb`, whatever their number of channels, and sometimes `bw`
/// or `rgba`. The extensions `sgi` and `iris` are unambiguous, but rare.
pub open spec fn registered() -> Seq<RegistrationView> {
    let none = Seq::<SignatureView>::empty();
    seq![
        ("ora"@, Format::OpenRaster, none),
        ("pcx"@, Format::Pcx, pcx_signatures()),
        ("psd"@, Format::Psd, none),
        ("bw"@, Format::Sgi, none),
        ("rgb"@, Format::Sgi, none),
        ("rgba"@, Format::Sgi, none),
        ("iris"@, Format::Sgi, none),
        ("sgi"@, Format::Sgi, sgi_signatures()),
        ("wbmp"@, Format::Wbmp, none),
        ("xbm"@, Format::Xbm, none),
        ("bm"@, Format::Xbm, none),
    ]
}

/// What is registered where formats have been registered before, or have not.
pub open spec fn registered_after(done: bool) -> Seq<RegistrationView> {
    if done {
        Seq::empty()
    } else {
        registered()
    }
}

/// A signature in which all bits count.
fn plain_signature(b0: u8, b1: u8, b2: u8, b3: u8) -> (r: Signature)
    ensures
        r@ == (seq![b0, b1, b2, b3], None::<Seq<u8>>),
{
    let mut bytes: Vec<u8> = Vec::new();
    bytes.push(b0);
    bytes.push(b1);
    bytes.push(b2);
    bytes.push(b3);
    assert(bytes@ =~= seq![b0, b1, b2, b3]);
    Signature { bytes, mask: None }
}

/// A registration without signatures.
fn by_extension(extension: &'static str, format: Format) -> (r: Registration)
    ensures
        r@ == (extension@, format, Seq::<SignatureView>::empty()),
{
    let r = Registration { extension, format, signatures: Vec::new() };
    assert(r@.2 =~= Seq::<SignatureView>::empty());
    r
}

/// The registration of PCX files.
fn pcx_registration() -> (r: Registration)
    ensures
        r@ == ("pcx"@, Format::Pcx, pcx_signatures()),
{
    let mut bytes: Vec<u8> = Vec::new();
    bytes.push(0x0a);
    bytes.push(0x00);
    let mut mask: Vec<u8> = Vec::new();
    mask.push(0xff);
    mask.push(0xf8);
    assert(bytes@ =~= seq![0x0au8, 0x00u8]);
    assert(mask@ =~= seq![0xffu8, 0xf8u8]);
    let mut signatures: Vec<Signature> = Vec::new();
    signatures.push(Signature { bytes, mask: Some(mask) });
    let r = Registration { extension: "pcx", format: Format::Pcx, signatures };
    assert(r@.2 =~= pcx_signatures());
    r
}

/// The registration of SGI files by their signatures.
fn sgi_registration() -> (r: Registration)
    ensures
        r@ == ("sgi"@, Format::Sgi, sgi_signatures()),
{
    let mut signatures: Vec<Signature> = Vec::new();
    signatures.push(plain_signature(0x01, 0xda, 0x00, 0x01));
    signatures.push(plain_signature(0x01, 0xda, 0x01, 0x01));
    signatures.push(plain_signature(0x01, 0xda, 0x00, 0x02));
    signatures.push(plain_signature(0x01, 0xda, 0x01, 0x02));
    let r = Registration { extension: "sgi", format: Format::Sgi, signatures };
    assert(r@.2 =~= sgi_signatures());
    r
}

/// What is to be registered: all formats, unless that has been done before. Registering them
/// again has no effect.
pub fn register(done: bool) -> (r: Vec<Registration>)
    ensures
        r@.map_values(|x: Registration| x@) == registered_after(done),
{
    let mut r: Vec<Registration> = Vec::new();
    if done {
        assert(r@.map_values(|x: Registration| x@) =~= Seq::<RegistrationView>::empty());
        return r;
    }
    r.push(by_extension("ora", Format::OpenRaster));
    r.push(pcx_registration());
    r.push(by_extension("psd", Format::Psd));
    r.push(by_extension("bw", Format::Sgi));
    r.push(by_extension("rgb", Format::Sgi));
    r.push(by_extension("rgba", Format::Sgi));
    r.push(by_extension("iris", Format::Sgi));
    r.push(sgi_registration());
    r.push(by_extension("wbmp", Format::Wbmp));
    r.push(by_extension("xbm", Format::Xbm));
    r.push(by_extension("bm", Format::Xbm));
    assert(r@.map_values(|x: Registration| x@) =~= registered());
    r
}

impl Registration {
    /// The signatures that are to be registered, once it is known whether the extension was
    /// `accepted`. An extension that something else was registered for is not.
    pub fn detected_by(self, accepted: bool) -> (r: Vec<Signature>)
        ensures
            accepted ==> r == self.signatures,
            !accepted ==> r@.len() == 0,
    {
        if accepted {
            self.signatures
        } else {
            Vec::new()
        }
    }
}

/// Whether a file starts with a signature.
pub open spec fn starts_with(file: Seq<u8>, signature: SignatureView) -> bool {
    let (bytes, mask) = signature;
    &&& file.len() >= bytes.len()
    &&& forall|i: int|
        0 <= i < bytes.len() ==> #[trigger] bytes[i] == (match mask {
            Some(m) => file[i] & m[i],
            None => file[i],
        })
}

/// Every SGI file whose header can be read starts with one of the signatures.
pub proof fn law_sgi_signature(file: Seq<u8>)
    requires
        file.len() >= sgi::HEADER_FULL_LENGTH,
        sgi::header_info(file.take(sgi::HEADER_FULL_LENGTH as int)) is Ok,
    ensures
        exists|i: int|
            0 <= i < sgi_signatures().len() && starts_with(file, #[trigger] sgi_signatures()[i]),
{
    let header = file.take(sgi::HEADER_FULL_LENGTH as int);
    assert(header[0] == file[0] && header[1] == file[1] && header[2] == file[2] && header[3]
        == file[3]);
    let i: int = if file[2] == 0 {
        if file[3] == 1 {
            0
        } else {
            2
        }
    } else {
        if file[3] == 1 {
            1
        } else {
            3
        }
    };
    assert(starts_with(file, sgi_signatures()[i]));
}

/// Every PCX file whose header can be read starts with the signature.
pub proof fn law_pcx_signature(file: Seq<u8>)
    requires
        pcx::header_of(file) is Ok,
    ensures
        starts_with(file, pcx_signatures()[0]),
{
    let version = file[1];
    assert(10u8 & 0xffu8 == 10u8) by (bit_vector);
    assert(version & 0xf8u8 == 0u8) by (bit_vector)
        requires
            version < 8u8,
    ;
}

/// Whether an extension is registered for a format.
pub open spec fn opens(extension: Seq<char>, format: Format) -> bool {
    exists|i: int|
        0 <= i < registered().len() && (#[trigger] registered()[i]).0 == extension
            && registered()[i].1 == format
}

/// Every extension is registered once, for the format that it stands for, and no other one is.
pub proof fn law_extensions(extension: Seq<char>, format: Format, i: int, j: int)
    ensures
        opens(extension, format) <==> {
            ||| extension == "ora"@ && format == Format::OpenRaster
            ||| extension == "pcx"@ && format == Format::Pcx
            ||| extension == "psd"@ && format == Format::Psd
            ||| extension == "bw"@ && format == Format::Sgi
            ||| extension == "rgb"@ && format == Format::Sgi
            ||| extension == "rgba"@ && format == Format::Sgi
            ||| extension == "iris"@ && format == Format::Sgi
            ||| extension == "sgi"@ && format == Format::Sgi
            ||| extension == "wbmp"@ && format == Format::Wbmp
            ||| extension == "xbm"@ && format == Format::Xbm
            ||| extension == "bm"@ && format == Format::Xbm
        },
        0 <= i < registered().len() && 0 <= j < registered().len() && registered()[i].0
            == registered()[j].0 ==> i == j,
{
    reveal_strlit("ora");
    reveal_strlit("pcx");
    reveal_strlit("psd");
    reveal_strlit("bw");
    reveal_strlit("rgb");
    reveal_strlit("rgba");
    reveal_strlit("iris");
    reveal_strlit("sgi");
    reveal_strlit("wbmp");
    reveal_strlit("xbm");
    reveal_strlit("bm");
    let r = registered();
    assert(r[0].0 == "ora"@ && r[1].0 == "pcx"@ && r[2].0 == "psd"@ && r[3].0 == "bw"@);
    assert(r[4].0 == "rgb"@ && r[5].0 == "rgba"@ && r[6].0 == "iris"@ && r[7].0 == "sgi"@);
    assert(r[8].0 == "wbmp"@ && r[9].0 == "xbm"@ && r[10].0 == "bm"@);
    if 0 <= i < r.len() && 0 <= j < r.len() && r[i].0 == r[j].0 {
        let a = r[i].0;
        let b = r[j].0;
        assert(a.len() == b.len() && a[0] == b[0] && a[1] == b[1] && a[a.len() - 1] == b[b.len()
            - 1]);
    }
}

/// Whether a file starts with a signature of a format.
pub open spec fn detected(file: Seq<u8>, format: Format) -> bool {
    exists|i: int, k: int|
        0 <= i < registered().len() && registered()[i].1 == format && 0 <= k
            < registered()[i].2.len() && starts_with(file, #[trigger] registered()[i].2[k])
}

/// A file is taken for an SGI file by its first four bytes: those of the signature, the kind of
/// storage, and the number of bytes of a sample. It is taken for a PCX file by its first two: that of
/// the signature, and a version below eight. Files of other formats are not told by their bytes.
pub proof fn law_signatures(file: Seq<u8>, format: Format)
    requires
        file.len() >= 4,
    ensures
        detected(file, format) <==> {
            ||| format == Format::Sgi && file[0] == 1 && file[1] == 218 && (file[2] == 0 || file[2]
                == 1) && (file[3] == 1 || file[3] == 2)
            ||| format == Format::Pcx && file[0] == 10 && file[1] < 8
        },
{
    let r = registered();
    let a = file[0];
    let v = file[1];
    assert(a & 0xffu8 == a) by (bit_vector);
    assert((v & 0xf8u8 == 0u8) == (v < 8u8)) by (bit_vector);
    assert(r[1].2 == pcx_signatures() && r[7].2 == sgi_signatures());
    let p = pcx_signatures()[0];
    assert(p.0[0] == 0x0a && p.0[1] == 0 && p.1->0[0] == 0xff && p.1->0[1] == 0xf8);
    assert(starts_with(file, r[1].2[0]) <==> a == 10 && v < 8);
    assert forall|k: int| 0 <= k < 4 implies (#[trigger] starts_with(file, r[7].2[k]) <==> file[0]
        == 1 && file[1] == 218 && file[2] == (if k == 1 || k == 3 {
        1u8
    } else {
        0u8
    }) && file[3] == (if k < 2 {
        1u8
    } else {
        2u8
    })) by {
        let q = r[7].2[k];
        assert(q == sgi_signatures()[k]);
        assert(q.0[0] == 1 && q.0[1] == 218);
        assert(q.0[2] == (if k == 1 || k == 3 {
            1u8
        } else {
            0u8
        }));
        assert(q.0[3] == (if k < 2 {
            1u8
        } else {
            2u8
        }));
    }
    if format == Format::Sgi && file[0] == 1 && file[1] == 218 && (file[2] == 0 || file[2] == 1) && (
    file[3] == 1 || file[3] == 2) {
        let k: int = (if file[3] == 1 {
            0int
        } else {
            2int
        }) + file[2];
        assert(starts_with(file, r[7].2[k]));
    }
}

/// However often formats are registered, what comes of it is what comes of registering them once.
pub proof fn law_registering_again(done: bool)
    ensures
        registered_after(false) + registered_after(true) == registered_after(false),
        registered_after(false).len() == 11,
        registered_after(true).len() == 0,
        registered_after(done) == registered() || registered_after(done).len() == 0,
{
    assert(registered_after(false) + registered_after(true) =~= registered_after(false));
}

} // verus!
