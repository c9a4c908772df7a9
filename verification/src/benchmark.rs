use crate::types;
use crate::types::{Block, Digest};
use vstd::prelude::*;

verus! {

/// What `base64::encode` makes of `bytes`.
pub uninterp spec fn base64_text(bytes: Seq<u8>) -> Seq<char>;

/// Calls `base64::encode`, which writes the bytes of the digest in the
/// standard base64 alphabet, with padding. That the text depends on the bytes
/// alone is all that is claimed; which text it is stays unsaid.
#[verifier::external_body]
fn base64_encode(digest: &Digest) -> (text: String)
    ensures
        text@ == base64_text(digest@),
{
    base64::encode(digest.0)
}

/// The texts of `digests`.
pub open spec fn texts(digests: Seq<Seq<u8>>) -> Seq<Seq<char>> {
    digests.map_values(|d: Seq<u8>| base64_text(d))
}

/// The strings of `strings`, each as its characters.
pub open spec fn strings_view(strings: Seq<String>) -> Seq<Seq<char>> {
    strings.map_values(|s: String| s@)
}

/// The digests of a committed block as text, for the log from which
/// performance is computed.
pub fn committed_entries(block: &Block) -> (entries: Vec<String>)
    ensures
        strings_view(entries@) == texts(block@.payload),
        entries@.len() == block.payload@.len(),
        forall|i: int|
            0 <= i < entries@.len() ==> (#[trigger] entries@[i])@ == base64_text(
                block.payload@[i].0@,
            ),
{
    let ghost digests = block@.payload;
    let mut entries: Vec<String> = Vec::new();
    let mut k: usize = 0;
    assert(strings_view(entries@) =~= texts(digests.take(0)));
    while k < block.payload.len()
        invariant
            k <= block.payload@.len(),
            digests == types::digests_view(block.payload@),
            strings_view(entries@) == texts(digests.take(k as int)),
        decreases block.payload@.len() - k,
    {
        let ghost earlier = entries@;
        let text = base64_encode(&block.payload[k]);
        entries.push(text);
        proof {
            assert(text@ == base64_text(digests[k as int]));
            assert(strings_view(entries@) =~= strings_view(earlier).push(text@));
            assert(texts(digests.take(k + 1)) =~= texts(digests.take(k as int)).push(text@));
        }
        k += 1;
    }
    assert(digests.take(k as int) =~= digests);
    assert forall|i: int| 0 <= i < entries@.len() implies (#[trigger] entries@[i])@ == base64_text(
        block.payload@[i].0@,
    ) by {
        assert(strings_view(entries@)[i] == texts(digests)[i]);
    }
    entries
}

} // verus!
