//! Namespace identification: a region handle derived from a description.
//!
//! A human-readable `description` is hashed with BLAKE3 to a deterministic handle, so two
//! peers that pass the same description attach to the same region with no manual
//! coordination. The name prefix (`/tessera-slate-`) keeps such a region from colliding
//! with a region of another kind derived from the same description.
use vstd::prelude::*;

use crate::text;
use crate::text::push_hex_padded;

verus! {

/// The BLAKE3 digest of a byte sequence.
pub uninterp spec fn blake3_digest(input: Seq<u8>) -> Seq<u8>;

/// `blake3::hash`: the 32-byte BLAKE3 digest of `input`, which depends on nothing but
/// `input`. The contract names the digest and says nothing about its value.
#[verifier::external_body]
fn blake3_hash(input: &[u8]) -> (r: [u8; 32])
    ensures
        r@ == blake3_digest(input@),
{
    *blake3::hash(input).as_bytes()
}

/// What a region's name starts with.
pub open spec fn name_prefix() -> Seq<char> {
    "/tessera-slate-"@
}

/// Two lower-case base-sixteen digits for each byte.
pub open spec fn hex_text(bytes: Seq<u8>) -> Seq<char>
    decreases bytes.len(),
{
    if bytes.len() == 0 {
        seq![]
    } else {
        hex_text(bytes.drop_last()) + text::hex_padded(bytes.last() as nat, 2)
    }
}

/// The name of the region that a digest stands for: the prefix, then the first sixteen
/// bytes of the digest in base sixteen.
pub open spec fn region_name(digest: Seq<u8>) -> Seq<char> {
    name_prefix() + hex_text(digest.take(16))
}

/// 128-bit prefix of BLAKE3(description), which becomes the region's name, and the full
/// digest.
#[derive(Copy, Clone, Debug, PartialEq, Eq, Hash)]
pub struct NamespaceHandle {
    /// First 16 bytes of the digest.
    digest_prefix: [u8; 16],
    /// The digest. It stands in the global header, so that attachers can verify their
    /// description against the creator's.
    full_digest: [u8; 32],
}

impl NamespaceHandle {
    #[verifier::type_invariant]
    spec fn wf(self) -> bool {
        self.digest_prefix@ == self.full_digest@.take(16)
    }

    /// The full digest.
    pub closed spec fn digest(self) -> Seq<u8> {
        self.full_digest@
    }

    /// Derive a namespace handle from the operator-facing description.
    pub fn derive(description: &str) -> (r: NamespaceHandle)
        ensures
            r.digest() == blake3_digest(vstd::utf8::encode_utf8(description@)),
    {
        NamespaceHandle::from_digest(blake3_hash(description.as_bytes()))
    }

    /// The handle of a digest.
    pub fn from_digest(full_digest: [u8; 32]) -> (r: NamespaceHandle)
        ensures
            r.digest() == full_digest@,
    {
        let mut digest_prefix: [u8; 16] = [0u8; 16];
        let mut i: usize = 0;
        while i < 16
            invariant
                i <= 16,
                forall|k: int| 0 <= k < i ==> digest_prefix@[k] == full_digest@[k],
            decreases 16 - i,
        {
            digest_prefix[i] = full_digest[i];
            i += 1;
        }
        assert(digest_prefix@ =~= full_digest@.take(16));
        NamespaceHandle { digest_prefix, full_digest }
    }

    /// Full BLAKE3 digest for header storage and cross-verification.
    pub fn full_digest(&self) -> (r: [u8; 32])
        ensures
            r@ == self.digest(),
    {
        self.full_digest
    }

    /// The region's name (`/tessera-slate-<hex>`).
    pub fn shm_name(&self) -> (r: String)
        ensures
            r@ == region_name(self.digest()),
    {
        proof {
            use_type_invariant(self);
        }
        let mut out: String = String::new();
        out.append("/tessera-slate-");
        let mut i: usize = 0;
        assert(self.digest_prefix@.take(0) =~= seq![]);
        assert(out@ =~= name_prefix() + hex_text(self.digest_prefix@.take(0)));
        while i < 16
            invariant
                i <= 16,
                out@ == name_prefix() + hex_text(self.digest_prefix@.take(i as int)),
            decreases 16 - i,
        {
            let ghost before = self.digest_prefix@.take(i as int);
            let ghost now = self.digest_prefix@.take(i + 1);
            assert(now.drop_last() =~= before);
            push_hex_padded(&mut out, self.digest_prefix[i] as u64, 2);
            i += 1;
            assert(out@ =~= name_prefix() + hex_text(now));
        }
        assert(self.digest_prefix@.take(16) =~= self.digest_prefix@);
        out
    }
}

/// A base-sixteen digit, lower case.
pub open spec fn is_hex_digit(c: char) -> bool {
    '0' <= c <= '9' || 'a' <= c <= 'f'
}

proof fn lemma_digit(d: int)
    requires
        0 <= d < 16,
    ensures
        is_hex_digit(text::digit(d)),
        text::digit(d) as int == if d < 10 {
            d + 48
        } else {
            d + 87
        },
{
}

proof fn lemma_hex_text(bytes: Seq<u8>)
    ensures
        hex_text(bytes).len() == 2 * bytes.len(),
        forall|i: int| 0 <= i < bytes.len() ==> {
            &&& #[trigger] hex_text(bytes)[2 * i] == text::digit(bytes[i] as int / 16)
            &&& hex_text(bytes)[2 * i + 1] == text::digit(bytes[i] as int % 16)
        },
    decreases bytes.len(),
{
    if bytes.len() > 0 {
        let head = bytes.drop_last();
        lemma_hex_text(head);
        reveal_with_fuel(text::hex_padded, 3);
        let last = text::hex_padded(bytes.last() as nat, 2);
        assert(last =~= seq![
            text::digit(bytes.last() as int / 16),
            text::digit(bytes.last() as int % 16),
        ]);
        assert forall|i: int| 0 <= i < bytes.len() implies {
            &&& #[trigger] hex_text(bytes)[2 * i] == text::digit(bytes[i] as int / 16)
            &&& hex_text(bytes)[2 * i + 1] == text::digit(bytes[i] as int % 16)
        } by {
            if i < head.len() {
                assert(hex_text(head)[2 * i] == text::digit(head[i] as int / 16));
            }
        }
    }
}

/// A region's name is `/tessera-slate-` and 32 lower-case base-sixteen digits.
pub proof fn law_name_shape(digest: Seq<u8>)
    requires
        digest.len() == 32,
    ensures
        region_name(digest).len() == 47,
        region_name(digest).take(15) == name_prefix(),
        forall|i: int| 15 <= i < 47 ==> is_hex_digit(#[trigger] region_name(digest)[i]),
{
    reveal_strlit("/tessera-slate-");
    let bytes = digest.take(16);
    lemma_hex_text(bytes);
    assert(region_name(digest).take(15) =~= name_prefix());
    assert forall|i: int| 15 <= i < 47 implies is_hex_digit(#[trigger] region_name(digest)[i]) by {
        let k = (i - 15) / 2;
        lemma_digit(bytes[k] as int / 16);
        lemma_digit(bytes[k] as int % 16);
        assert(hex_text(bytes)[2 * k] == text::digit(bytes[k] as int / 16));
        assert(i - 15 == 2 * k || i - 15 == 2 * k + 1);
    }
}

/// A region's name holds no NUL, so it can be handed to the system as a C string.
pub proof fn law_name_has_no_nul(digest: Seq<u8>)
    requires
        digest.len() == 32,
    ensures
        !region_name(digest).contains('\0'),
{
    reveal_strlit("/tessera-slate-");
    law_name_shape(digest);
    assert forall|i: int| 0 <= i < 47 implies region_name(digest)[i] != '\0' by {
        if i < 15 {
            assert(region_name(digest)[i] == name_prefix()[i]);
        }
    }
}

/// Two digests have the same region name exactly where their first sixteen bytes agree.
pub proof fn law_names_tell_prefixes_apart(a: Seq<u8>, b: Seq<u8>)
    requires
        a.len() == 32,
        b.len() == 32,
    ensures
        region_name(a) == region_name(b) <==> a.take(16) == b.take(16),
{
    reveal_strlit("/tessera-slate-");
    let x = a.take(16);
    let y = b.take(16);
    lemma_hex_text(x);
    lemma_hex_text(y);
    if region_name(a) == region_name(b) {
        assert(region_name(a).skip(15) =~= hex_text(x));
        assert(region_name(b).skip(15) =~= hex_text(y));
        assert forall|i: int| 0 <= i < 16 implies x[i] == y[i] by {
            assert(hex_text(x)[2 * i] == hex_text(y)[2 * i]);
            assert(hex_text(x)[2 * i + 1] == hex_text(y)[2 * i + 1]);
            lemma_digit(x[i] as int / 16);
            lemma_digit(x[i] as int % 16);
            lemma_digit(y[i] as int / 16);
            lemma_digit(y[i] as int % 16);
        }
        assert(x =~= y);
    }
}

/// No region has a name that starts with `/tessera-ring-`: regions of that kind cannot
/// collide with one derived from the same description.
pub proof fn law_name_avoids_ring_prefix(digest: Seq<u8>)
    requires
        digest.len() == 32,
    ensures
        !"/tessera-ring-"@.is_prefix_of(region_name(digest)),
{
    reveal_strlit("/tessera-slate-");
    reveal_strlit("/tessera-ring-");
    assert(region_name(digest)[9] == 's');
    assert("/tessera-ring-"@[9] == 'r');
}

/// A region's name spells the digest: behind the prefix, every two digits read back as one of
/// its first sixteen bytes, in their order.
pub proof fn law_name_spells_digest(digest: Seq<u8>, i: int)
    requires
        digest.len() == 32,
        0 <= i < 16,
    ensures
        region_name(digest).take(15) == "/tessera-slate-"@,
        text::numeral(16, region_name(digest).subrange(15 + 2 * i, 17 + 2 * i)) == digest[i],
{
    reveal_strlit("/tessera-slate-");
    law_name_shape(digest);
    let bytes = digest.take(16);
    lemma_hex_text(bytes);
    let pair = region_name(digest).subrange(15 + 2 * i, 17 + 2 * i);
    assert(hex_text(bytes)[2 * i] == text::digit(bytes[i] as int / 16));
    lemma_digit(bytes[i] as int / 16);
    lemma_digit(bytes[i] as int % 16);
    reveal_with_fuel(text::numeral, 3);
    assert(pair.drop_last().drop_last() =~= seq![]);
    assert(pair.last() == text::digit(bytes[i] as int % 16));
    assert(pair.drop_last().last() == text::digit(bytes[i] as int / 16));
}

} // verus!
