//! A project: the directory the tools work in, and the stable name of
//! its data.

use vstd::prelude::*;
use vstd::utf8::encode_utf8;

use crate::path::{file_name, join, joined, name_of};
use crate::text::{extend, push_str, string_of};

verus! {

/// FNV-1a's offset basis.
pub const OFFSET_BASIS: u64 = 0xcbf2_9ce4_8422_2325;

/// FNV-1a's prime.
pub const PRIME: u64 = 0x0000_0100_0000_01b3;

/// A project: its id, and the path of its directory.
#[derive(Debug, Clone, PartialEq, Eq)]
pub struct Project {
    pub id: Id,
    pub path: String,
}

/// The name of a project's data: the project's name and a hash of its
/// path, the same in every process.
#[derive(Debug, Clone, PartialEq, Eq)]
pub struct Id(String);

impl View for Id {
    type V = Seq<char>;

    closed spec fn view(&self) -> Seq<char> {
        self.0@
    }
}

/// FNV-1a over `bytes`, 64 bits wide.
pub open spec fn fnv1a(bytes: Seq<u8>) -> u64
    decreases bytes.len(),
{
    if bytes.len() == 0 {
        OFFSET_BASIS
    } else {
        (((fnv1a(bytes.drop_last()) ^ (bytes.last() as u64)) as nat * PRIME as nat)
            % 0x1_0000_0000_0000_0000) as u64
    }
}

/// The lower-case hex digit of `d`, below sixteen.
pub open spec fn hex_digit(d: nat) -> char {
    if d < 10 {
        ((d + 48) as u8) as char
    } else {
        ((d + 87) as u8) as char
    }
}

/// The last `width` hex digits of `n`, zero-padded: `{:0width$x}` where
/// `n` has no more digits than that.
pub open spec fn hex_fixed(n: nat, width: nat) -> Seq<char>
    decreases width,
{
    if width == 0 {
        seq![]
    } else {
        hex_fixed(n / 16, (width - 1) as nat).push(hex_digit(n % 16))
    }
}

/// The id of the project at `path`: its name, where it has one, a dash,
/// and the first eight digits of the hash of its path written as
/// sixteen hex digits.
pub open spec fn id_of(path: Seq<char>) -> Seq<char> {
    let hash = hex_fixed(fnv1a(vstd::utf8::encode_utf8(path)) as nat, 16).take(8);
    match file_name(path) {
        Some(name) => name + "-"@ + hash,
        None => hash,
    }
}

/// FNV-1a over `bytes`.
pub fn fnv1a_64(bytes: &[u8]) -> (h: u64)
    ensures
        h == fnv1a(bytes@),
{
    let mut state: u64 = OFFSET_BASIS;
    let mut i: usize = 0;
    while i < bytes.len()
        invariant
            i <= bytes.len(),
            state == fnv1a(bytes@.take(i as int)),
        decreases bytes.len() - i,
    {
        proof {
            let t = bytes@.take(i + 1);
            assert(t.drop_last() =~= bytes@.take(i as int));
            assert(t.last() == bytes@[i as int]);
        }
        state = (state ^ (bytes[i] as u64)).wrapping_mul(PRIME);
        i = i + 1;
    }
    assert(bytes@.take(i as int) =~= bytes@);
    state
}

/// The digits of `n` in hex, `width` of them.
fn hex_of(n: u64, width: usize) -> (v: Vec<char>)
    ensures
        v@ == hex_fixed(n as nat, width as nat),
    decreases width,
{
    if width == 0 {
        Vec::new()
    } else {
        let mut v = hex_of(n / 16, width - 1);
        let d = n % 16;
        let c = if d < 10 {
            ((d + 48) as u8) as char
        } else {
            ((d + 87) as u8) as char
        };
        v.push(c);
        v
    }
}

impl Id {
    /// The id of the project at `project`.
    pub fn new(project: &str) -> (id: Id)
        ensures
            id@ == id_of(project@),
    {
        let h = fnv1a_64(project.as_bytes());
        let hash = hex_of(h, 16);
        proof {
            lemma_hex_len(h as nat, 16);
        }
        let mut short: Vec<char> = Vec::new();
        let mut i: usize = 0;
        while i < 8
            invariant
                i <= 8,
                hash.len() == 16,
                short@ == hash@.take(i as int),
            decreases 8 - i,
        {
            short.push(hash[i]);
            i = i + 1;
            assert(short@ =~= hash@.take(i as int));
        }
        let id = match name_of(project) {
            Some(name) => {
                let mut v: Vec<char> = Vec::new();
                push_str(&mut v, name.as_str());
                push_str(&mut v, "-");
                extend(&mut v, &short);
                v
            },
            None => short,
        };
        Id(string_of(&id))
    }

    /// The id, as text.
    pub fn as_str(&self) -> (s: &str)
        ensures
            s@ == self@,
    {
        self.0.as_str()
    }
}

proof fn lemma_hex_len(n: nat, width: nat)
    ensures
        hex_fixed(n, width).len() == width,
    decreases width,
{
    if width > 0 {
        lemma_hex_len(n / 16, (width - 1) as nat);
    }
}

/// The path `p` under the path `base`, both as the bytes the platform
/// spells them with: `p` itself where it is absolute or `base` is empty,
/// else `base` and `p` with one `/` between them.
pub open spec fn bytes_joined(base: Seq<u8>, p: Seq<u8>) -> Seq<u8> {
    if (p.len() > 0 && p[0] == 47u8) || base.len() == 0 {
        p
    } else if base.last() == 47u8 {
        base + p
    } else {
        base + seq![47u8] + p
    }
}

/// Where the data directory of the platform, spelled `data`, keeps the
/// data of the project with the id `id`: `<data>/pick/<id>`, the names in
/// UTF-8.
pub open spec fn data_path(data: Seq<u8>, id: Seq<char>) -> Seq<u8> {
    bytes_joined(bytes_joined(data, encode_utf8("pick"@)), encode_utf8(id))
}

/// The data directory of the platform, as the bytes the platform spells
/// it with: calls `dirs::data_dir`, which reads the environment; nothing
/// is claimed of what it answers.
#[verifier::external_body]
fn platform_data_dir() -> (r: Option<Vec<u8>>) {
    dirs::data_dir().map(|path| path.into_os_string().into_encoded_bytes())
}

/// The bytes of `base` followed by those of `p`.
fn concat_bytes(base: &[u8], p: &[u8]) -> (r: Vec<u8>)
    ensures
        r@ == base@ + p@,
{
    let mut r: Vec<u8> = Vec::new();
    let mut i: usize = 0;
    while i < base.len()
        invariant
            i <= base.len(),
            r@ == base@.take(i as int),
        decreases base.len() - i,
    {
        r.push(base[i]);
        assert(base@.take(i + 1) =~= base@.take(i as int).push(base@[i as int]));
        i = i + 1;
    }
    assert(base@.take(base.len() as int) =~= base@);
    let mut j: usize = 0;
    while j < p.len()
        invariant
            j <= p.len(),
            r@ == base@ + p@.take(j as int),
        decreases p.len() - j,
    {
        r.push(p[j]);
        assert(p@.take(j + 1) =~= p@.take(j as int).push(p@[j as int]));
        j = j + 1;
    }
    assert(p@.take(p.len() as int) =~= p@);
    r
}

/// The path `p` under `base`, as bytes.
fn join_bytes(base: &[u8], p: &[u8]) -> (r: Vec<u8>)
    ensures
        r@ == bytes_joined(base@, p@),
{
    if (p.len() > 0 && p[0] == 47u8) || base.len() == 0 {
        concat_bytes(&[], p)
    } else if base[base.len() - 1] == 47u8 {
        concat_bytes(base, p)
    } else {
        let with_slash = concat_bytes(base, &[47u8]);
        concat_bytes(with_slash.as_slice(), p)
    }
}

impl Project {
    /// The project at `path`.
    pub fn new(path: String) -> (p: Project)
        ensures
            p.path@ == path@,
            p.id@ == id_of(path@),
    {
        let id = Id::new(path.as_str());
        Project { id, path }
    }

    /// The path of `path` inside the project; an absolute `path` stands
    /// for itself.
    pub fn join(&self, path: &str) -> (r: String)
        ensures
            r@ == joined(self.path@, path@),
    {
        join(self.path.as_str(), path)
    }

    /// Where the project's data is kept, as the bytes the platform spells
    /// the path with: a directory named after its id under the platform's
    /// data directory, or under the current one where the platform has
    /// none.
    pub fn data_dir(&self) -> (r: Vec<u8>)
        ensures
            exists|data: Seq<u8>| r@ == data_path(data, self.id@),
    {
        let data = match platform_data_dir() {
            Some(d) => d,
            None => Vec::new(),
        };
        data_dir_in(data.as_slice(), &self.id)
    }
}

/// Where the data directory spelled `data` keeps the data of the project
/// with the id `id`: `<data>/pick/<id>`.
pub fn data_dir_in(data: &[u8], id: &Id) -> (r: Vec<u8>)
    ensures
        r@ == data_path(data@, id@),
{
    let under = join_bytes(data, "pick".as_bytes());
    join_bytes(under.as_slice(), id.as_str().as_bytes())
}

} // verus!
