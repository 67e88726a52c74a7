//! What has drifted: the states of one file, and what they make of it.

use vstd::prelude::*;
use vstd::string::*;
use vstd::utf8::*;

use crate::chezmoi::EvalFailure;

verus! {

/// The SHA-256 digest of some bytes.
pub uninterp spec fn sha256(bytes: Seq<u8>) -> Seq<u8>;

/// `sha2::Sha256::digest`: thirty-two bytes that depend on the input alone.
#[verifier::external_body]
pub(crate) fn sha256_digest(bytes: &[u8]) -> (r: [u8; 32])
    ensures
        r@ == sha256(bytes@),
{
    <sha2::Sha256 as sha2::Digest>::digest(bytes).into()
}

/// The hash of a file's content.
#[derive(Debug, Clone, Copy, PartialEq, Eq, Hash)]
pub struct ContentHash(pub [u8; 32]);

// ---------------------------------------------------------------------------
// Hexadecimal

/// The hexadecimal digit of a number below sixteen.
pub open spec fn hex_digit(d: int) -> char {
    if d < 10 {
        (0x30 + d) as u8 as char
    } else {
        (0x57 + d) as u8 as char
    }
}

/// Two digits for each byte.
pub open spec fn hex(b: Seq<u8>) -> Seq<char>
    decreases b.len(),
{
    if b.len() == 0 {
        seq![]
    } else {
        hex(b.drop_last()).push(hex_digit(b.last() as int / 16)).push(
            hex_digit(b.last() as int % 16),
        )
    }
}

/// The value of a hexadecimal digit, in either case.
pub open spec fn digit_value(c: u8) -> Option<int> {
    if 0x30 <= c <= 0x39 {
        Some(c - 0x30)
    } else if 0x61 <= c <= 0x66 {
        Some(c - 0x57)
    } else if 0x41 <= c <= 0x46 {
        Some(c - 0x37)
    } else {
        None
    }
}

/// The bytes that pairs of digits stand for, up to the `n`-th pair.
pub open spec fn unhex(b: Seq<u8>, n: int) -> Option<Seq<u8>>
    decreases n,
{
    if n <= 0 {
        Some(seq![])
    } else {
        match (unhex(b, n - 1), digit_value(b[2 * n - 2]), digit_value(b[2 * n - 1])) {
            (Some(front), Some(hi), Some(lo)) => Some(front.push((hi * 16 + lo) as u8)),
            _ => None,
        }
    }
}

/// The hash that a text is the hexadecimal form of.
pub open spec fn hash_from_hex(s: Seq<char>) -> Option<Seq<u8>> {
    let b = encode_utf8(s);
    if b.len() == 64 {
        unhex(b, 32)
    } else {
        None
    }
}

fn hex_char(d: u8) -> (c: char)
    requires
        d < 16,
    ensures
        c == hex_digit(d as int),
{
    if d < 10 {
        (0x30 + d) as char
    } else {
        (0x57 + d) as char
    }
}

fn hex_value(c: u8) -> (r: Option<u8>)
    ensures
        match r {
            Some(v) => digit_value(c) == Some(v as int) && v < 16,
            None => digit_value(c) is None,
        },
{
    if 0x30 <= c && c <= 0x39 {
        Some(c - 0x30)
    } else if 0x61 <= c && c <= 0x66 {
        Some(c - 0x57)
    } else if 0x41 <= c && c <= 0x46 {
        Some(c - 0x37)
    } else {
        None
    }
}

proof fn lemma_unhex_stops(b: Seq<u8>, k: int, n: int)
    requires
        0 <= k <= n,
        unhex(b, k) is None,
    ensures
        unhex(b, n) is None,
    decreases n - k,
{
    if k < n {
        lemma_unhex_stops(b, k, n - 1);
    }
}

proof fn lemma_unhex_len(b: Seq<u8>, n: int)
    requires
        0 <= n,
    ensures
        unhex(b, n) matches Some(v) ==> v.len() == n,
    decreases n,
{
    if n > 0 {
        lemma_unhex_len(b, n - 1);
    }
}

impl ContentHash {
    /// The bytes of the hash.
    pub open spec fn bytes(self) -> Seq<u8> {
        self.0@
    }

    /// The hash of some content.
    pub fn of(bytes: &[u8]) -> (r: Self)
        ensures
            r.bytes() == sha256(bytes@),
    {
        ContentHash(sha256_digest(bytes))
    }

    /// The hash in hexadecimal digits.
    pub fn to_hex(&self) -> (r: String)
        ensures
            r@ == hex(self.bytes()),
    {
        let mut s = String::new();
        let mut i: usize = 0;
        assert(self.0@.take(0) =~= seq![]);
        while i < 32
            invariant
                i <= 32,
                s@ == hex(self.0@.take(i as int)),
            decreases 32 - i,
        {
            let b: u8 = self.0[i];
            s.push(hex_char(b / 16));
            s.push(hex_char(b % 16));
            proof {
                assert(self.0@.take(i + 1).drop_last() =~= self.0@.take(i as int));
                assert(self.0@.take(i + 1).last() == b);
            }
            i = i + 1;
        }
        assert(self.0@.take(32) =~= self.0@);
        s
    }

    /// The hash that sixty-four hexadecimal digits stand for.
    pub fn from_hex(s: &str) -> (r: Option<Self>)
        ensures
            match r {
                Some(h) => hash_from_hex(s@) == Some(h.bytes()),
                None => hash_from_hex(s@) is None,
            },
    {
        let b = s.as_bytes();
        if b.len() != 64 {
            return None;
        }
        let mut out: [u8; 32] = [0u8;32];
        let mut i: usize = 0;
        assert(out@.take(0) =~= seq![]);
        while i < 32
            invariant
                b@ == encode_utf8(s@),
                b@.len() == 64,
                i <= 32,
                unhex(b@, i as int) == Some(out@.take(i as int)),
            decreases 32 - i,
        {
            let hi = hex_value(b[2 * i]);
            let lo = hex_value(b[2 * i + 1]);
            match (hi, lo) {
                (Some(h), Some(l)) => {
                    let ghost had = out@.take(i as int);
                    out[i] = h * 16 + l;
                    assert(out@.take(i + 1) =~= had.push((h * 16 + l) as u8));
                },
                _ => {
                    proof {
                        assert(unhex(b@, i + 1) is None);
                        lemma_unhex_stops(b@, i + 1, 32);
                    }
                    return None;
                },
            }
            i = i + 1;
        }
        assert(out@.take(32) =~= out@);
        Some(ContentHash(out))
    }
}

proof fn lemma_hex_ascii(b: Seq<u8>)
    ensures
        hex(b).len() == 2 * b.len(),
        is_ascii_chars(hex(b)),
        forall|k: int|
            0 <= k < b.len() ==> hex(b)[2 * k] == hex_digit(#[trigger] b[k] as int / 16) && hex(
                b,
            )[2 * k + 1] == hex_digit(b[k] as int % 16),
    decreases b.len(),
{
    if b.len() > 0 {
        lemma_hex_ascii(b.drop_last());
        assert forall|k: int| 0 <= k < b.len() implies hex(b)[2 * k] == hex_digit(
            #[trigger] b[k] as int / 16,
        ) && hex(b)[2 * k + 1] == hex_digit(b[k] as int % 16) by {
            if k < b.len() - 1 {
                assert(b.drop_last()[k] == b[k]);
            }
        }
    }
}

proof fn lemma_digit_round_trip(d: int)
    requires
        0 <= d < 16,
    ensures
        digit_value(hex_digit(d) as u8) == Some(d),
{
}

proof fn lemma_unhex_hex(b: Seq<u8>, n: int)
    requires
        0 <= n <= b.len(),
    ensures
        unhex(encode_utf8(hex(b)), n) == Some(b.take(n)),
    decreases n,
{
    lemma_hex_ascii(b);
    is_ascii_chars_encode_utf8(hex(b));
    if n == 0 {
        assert(b.take(0) =~= seq![]);
    } else {
        lemma_unhex_hex(b, n - 1);
        let e = encode_utf8(hex(b));
        let x = b[n - 1];
        assert(hex(b)[2 * (n - 1)] == hex_digit(x as int / 16));
        assert(hex(b)[2 * (n - 1) + 1] == hex_digit(x as int % 16));
        assert(e[2 * n - 2] == hex(b)[2 * n - 2] as u8);
        assert(e[2 * n - 1] == hex(b)[2 * n - 1] as u8);
        lemma_digit_round_trip(x as int / 16);
        lemma_digit_round_trip(x as int % 16);
        assert(b.take(n) =~= b.take(n - 1).push(x));
    }
}

/// A hash is read back from its hexadecimal form.
pub proof fn law_hex_round_trips(h: ContentHash)
    ensures
        hash_from_hex(hex(h.bytes())) == Some(h.bytes()),
{
    let b = h.bytes();
    assert(b.len() == 32);
    lemma_hex_ascii(b);
    is_ascii_chars_encode_utf8(hex(b));
    lemma_unhex_hex(b, 32);
    assert(b.take(32) =~= b);
}

// ---------------------------------------------------------------------------
// Classes of drift

/// How the source repository stands to its remote, for one file.
#[derive(Debug, Clone, Copy, PartialEq, Eq, Structural)]
pub struct GitSignals {
    pub local_ahead: bool,
    pub remote_ahead: bool,
}

impl Default for GitSignals {
    fn default() -> (r: Self)
        ensures
            !r.local_ahead,
            !r.remote_ahead,
    {
        GitSignals { local_ahead: false, remote_ahead: false }
    }
}

/// What is known of one file.
#[derive(Debug)]
pub struct StateProbe {
    /// The file at its target path; none where it is missing.
    pub destination: Option<ContentHash>,
    /// What its source renders to; none where the entry has no content.
    pub rendered: Result<Option<ContentHash>, EvalFailure>,
    /// What was last written to the target path; none where nothing was.
    pub last_written: Option<ContentHash>,
    pub git: GitSignals,
}

#[derive(Debug, Clone, Copy, PartialEq, Eq, Structural)]
pub enum DriftClass {
    InSync,
    DestinationDrift,
    SourceAhead,
    RemoteAhead,
    LocalSourceDiverged,
    Conflict,
    EvalFailed,
}

pub open spec fn hash_bytes(h: Option<ContentHash>) -> Option<Seq<u8>> {
    match h {
        Some(x) => Some(x.bytes()),
        None => None,
    }
}

/// What three signals and the state of the repository make of a file: the target differs from
/// what was last written, the source renders to something else, the remote has commits.
pub open spec fn class_of_signals(
    dest_drift: bool,
    source_moved: bool,
    git: GitSignals,
) -> DriftClass {
    if git.local_ahead && git.remote_ahead {
        if dest_drift {
            DriftClass::Conflict
        } else {
            DriftClass::LocalSourceDiverged
        }
    } else if !dest_drift && !source_moved && !git.remote_ahead {
        DriftClass::InSync
    } else if dest_drift && !source_moved && !git.remote_ahead {
        DriftClass::DestinationDrift
    } else if !dest_drift && source_moved && !git.remote_ahead {
        DriftClass::SourceAhead
    } else if !dest_drift && !source_moved && git.remote_ahead {
        DriftClass::RemoteAhead
    } else {
        DriftClass::Conflict
    }
}

/// The class of a file: a source that cannot be rendered has failed, whatever else is known.
pub open spec fn class_of(p: StateProbe) -> DriftClass {
    match p.rendered {
        Err(_) => DriftClass::EvalFailed,
        Ok(rendered) => class_of_signals(
            hash_bytes(p.destination) != hash_bytes(p.last_written),
            hash_bytes(rendered) != hash_bytes(p.last_written),
            p.git,
        ),
    }
}

fn same_bytes(a: &ContentHash, b: &ContentHash) -> (r: bool)
    ensures
        r == (a.bytes() == b.bytes()),
{
    let mut i: usize = 0;
    while i < 32
        invariant
            i <= 32,
            forall|k: int| 0 <= k < i ==> a.0@[k] == b.0@[k],
        decreases 32 - i,
    {
        if a.0[i] != b.0[i] {
            return false;
        }
        i = i + 1;
    }
    assert(a.0@ =~= b.0@);
    true
}

/// Whether the two hashes are the same, or both missing.
pub fn same_hash(a: &Option<ContentHash>, b: &Option<ContentHash>) -> (r: bool)
    ensures
        r == (hash_bytes(*a) == hash_bytes(*b)),
{
    match (a, b) {
        (Some(x), Some(y)) => same_bytes(x, y),
        (None, None) => true,
        _ => false,
    }
}

/// The class of a file.
pub fn classify(probe: &StateProbe) -> (r: DriftClass)
    ensures
        r == class_of(*probe),
{
    let rendered = match &probe.rendered {
        Err(_) => {
            return DriftClass::EvalFailed;
        },
        Ok(h) => h,
    };
    let dest_drift = !same_hash(&probe.destination, &probe.last_written);
    let source_moved = !same_hash(rendered, &probe.last_written);
    let remote = probe.git.remote_ahead;
    if probe.git.local_ahead && remote {
        return if dest_drift {
            DriftClass::Conflict
        } else {
            DriftClass::LocalSourceDiverged
        };
    }
    if !dest_drift && !source_moved && !remote {
        DriftClass::InSync
    } else if dest_drift && !source_moved && !remote {
        DriftClass::DestinationDrift
    } else if !dest_drift && source_moved && !remote {
        DriftClass::SourceAhead
    } else if !dest_drift && !source_moved && remote {
        DriftClass::RemoteAhead
    } else {
        DriftClass::Conflict
    }
}

/// A failure to render hides every other signal; without one, a file is in sync exactly when
/// its three states agree and the remote has nothing new for it.
pub proof fn law_failures_dominate_and_sync_is_agreement(p: StateProbe)
    ensures
        p.rendered is Err <==> class_of(p) == DriftClass::EvalFailed,
        class_of(p) == DriftClass::InSync <==> {
            &&& p.rendered matches Ok(r) && hash_bytes(r) == hash_bytes(p.last_written)
            &&& hash_bytes(p.destination) == hash_bytes(p.last_written)
            &&& !p.git.remote_ahead
        },
{
}

/// Commits of ours that are not pushed say nothing of a file: as long as the remote has none for
/// it, its class is the same with them and without them.
pub proof fn law_unpushed_commits_change_no_class(p: StateProbe, q: StateProbe)
    requires
        hash_bytes(p.destination) == hash_bytes(q.destination),
        hash_bytes(p.last_written) == hash_bytes(q.last_written),
        match (p.rendered, q.rendered) {
            (Ok(a), Ok(b)) => hash_bytes(a) == hash_bytes(b),
            (Err(_), Err(_)) => true,
            _ => false,
        },
        !p.git.remote_ahead,
        !q.git.remote_ahead,
    ensures
        class_of(p) == class_of(q),
{
}

/// The class names what has moved away from what was last written. Where one thing alone has
/// moved, it is the disk, the source or the remote; where two or more have, that is a conflict.
/// Only commits on both ends make branches that have come apart.
pub proof fn law_classes_name_what_has_moved(p: StateProbe)
    requires
        p.rendered is Ok,
    ensures
        ({
            let disk = hash_bytes(p.destination) != hash_bytes(p.last_written);
            let source = hash_bytes(p.rendered->Ok_0) != hash_bytes(p.last_written);
            let remote = p.git.remote_ahead;
            let apart = p.git.local_ahead && remote;
            &&& class_of(p) == DriftClass::InSync <==> !disk && !source && !remote
            &&& class_of(p) == DriftClass::DestinationDrift <==> disk && !source && !remote
            &&& class_of(p) == DriftClass::SourceAhead <==> !disk && source && !remote
            &&& class_of(p) == DriftClass::RemoteAhead <==> !disk && !source && remote && !apart
            &&& class_of(p) == DriftClass::LocalSourceDiverged <==> !disk && apart
            &&& class_of(p) == DriftClass::Conflict <==> {
                ||| disk && source
                ||| disk && remote
                ||| source && remote && !apart
            }
            &&& class_of(p) != DriftClass::EvalFailed
        }),
{
}

/// A remote that gets commits for a file never makes it look better: what was in sync is behind
/// the remote then, and what had moved is in conflict, unless only our own commits meet them.
pub proof fn law_remote_commits_are_never_hidden(p: StateProbe, q: StateProbe)
    requires
        p.rendered is Ok,
        q.rendered == p.rendered,
        q.destination == p.destination,
        q.last_written == p.last_written,
        !p.git.remote_ahead,
        q.git.remote_ahead,
    ensures
        class_of(p) == DriftClass::InSync && !q.git.local_ahead ==> class_of(q)
            == DriftClass::RemoteAhead,
        class_of(p) == DriftClass::DestinationDrift ==> class_of(q) == DriftClass::Conflict,
        class_of(p) == DriftClass::SourceAhead && !q.git.local_ahead ==> class_of(q)
            == DriftClass::Conflict,
        class_of(p) == DriftClass::Conflict ==> class_of(q) == DriftClass::Conflict,
        class_of(q) != DriftClass::InSync,
{
}

/// Two hashes count as the same exactly when they are so byte for byte, or both are missing.
pub proof fn law_hashes_are_told_apart(a: Option<ContentHash>, b: Option<ContentHash>)
    ensures
        hash_bytes(a) == hash_bytes(b) <==> match (a, b) {
            (Some(x), Some(y)) => forall|k: int| 0 <= k < 32 ==> x.0@[k] == y.0@[k],
            (None, None) => true,
            _ => false,
        },
{
    if let (Some(x), Some(y)) = (a, b) {
        if forall|k: int| 0 <= k < 32 ==> x.0@[k] == y.0@[k] {
            assert(x.bytes() =~= y.bytes());
        }
    }
}

} // verus!
