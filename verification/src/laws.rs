use vstd::prelude::*;

use crate::registry::ids_for;
use crate::registry::CertificateContract;
use crate::registry::SubjectEntry;
use crate::types::CertificateView;
use crate::types::Identity;

verus! {

/// `ids_for` returns either the empty sequence or the list of an entry
/// whose subject is `d`.
proof fn lemma_ids_for_is_entry(entries: Seq<SubjectEntry>, d: Identity)
    ensures
        ids_for(entries, d).len() == 0 || exists|i: int|
            0 <= i < entries.len() && (#[trigger] entries[i]).subject == d && ids_for(entries, d)
                == entries[i].cert_ids@,
    decreases entries.len(),
{
    if entries.len() > 0 && entries[0].subject != d {
        lemma_ids_for_is_entry(entries.skip(1), d);
        if ids_for(entries.skip(1), d).len() != 0 {
            let i = choose|i: int|
                0 <= i < entries.skip(1).len() && (#[trigger] entries.skip(1)[i]).subject == d
                    && ids_for(entries.skip(1), d) == entries.skip(1)[i].cert_ids@;
            assert(entries[i + 1] == entries.skip(1)[i]);
        }
    }
}

/// Every identifier in a subject's list names a certificate that is
/// already minted: the index never points outside the store.
pub proof fn lemma_subject_ids_bounded(s: CertificateContract, d: Identity)
    requires
        s.wf(),
    ensures
        forall|k: int|
            0 <= k < s.subject_ids(d).len() ==> #[trigger] s.subject_ids(d)[k] < s.next_id(),
{
    lemma_ids_for_is_entry(s.subjects@, d);
    if s.subject_ids(d).len() != 0 {
        let i = choose|i: int|
            0 <= i < s.subjects@.len() && (#[trigger] s.subjects@[i]).subject == d && ids_for(
                s.subjects@,
                d,
            ) == s.subjects@[i].cert_ids@;
        assert forall|k: int| 0 <= k < s.subject_ids(d).len() implies #[trigger] s.subject_ids(d)[k]
            < s.next_id() by {
            assert(s.subjects@[i].cert_ids@[k] < s.counter);
        }
    }
}

/// The identifiers in any subject's list are strictly increasing in mint
/// order, so a subject's list never repeats an identifier.
pub proof fn lemma_subject_ids_strictly_increasing(s: CertificateContract, d: Identity)
    requires
        s.wf(),
    ensures
        forall|k: int, l: int|
            0 <= k < l < s.subject_ids(d).len() ==> #[trigger] s.subject_ids(d)[k]
                < #[trigger] s.subject_ids(d)[l],
{
    lemma_ids_for_is_entry(s.subjects@, d);
    if s.subject_ids(d).len() != 0 {
        let i = choose|i: int|
            0 <= i < s.subjects@.len() && (#[trigger] s.subjects@[i]).subject == d && ids_for(
                s.subjects@,
                d,
            ) == s.subjects@[i].cert_ids@;
        assert forall|k: int, l: int|
            0 <= k < l < s.subject_ids(d).len() implies #[trigger] s.subject_ids(d)[k]
            < #[trigger] s.subject_ids(d)[l] by {
            assert(s.subjects@[i].cert_ids@[k] < s.subjects@[i].cert_ids@[l]);
        }
    }
}

/// Successive successful mints hand out consecutive identifiers: minting
/// returns `0, 1, 2, ...` in call order, with no identifier repeated or
/// skipped, whoever mints and whoever receives.
pub proof fn lemma_mint_identifiers_consecutive(
    s0: CertificateContract,
    s1: CertificateContract,
    s2: CertificateContract,
    issuer1: Identity,
    developer1: Identity,
    event_id1: Seq<char>,
    event_name1: Seq<char>,
    date1: u64,
    id1: u64,
    issuer2: Identity,
    developer2: Identity,
    event_id2: Seq<char>,
    event_name2: Seq<char>,
    date2: u64,
    id2: u64,
)
    requires
        CertificateContract::minted(s0, s1, issuer1, developer1, event_id1, event_name1, date1, id1),
        CertificateContract::minted(s1, s2, issuer2, developer2, event_id2, event_name2, date2, id2),
    ensures
        id2 == id1 + 1,
        id1 < id2,
{
}

/// After an issuer is revoked, no mint transition by that issuer exists
/// from the new state, while every certificate already minted is still
/// stored unchanged under its identifier.
pub proof fn lemma_revoked_issuer_cannot_mint(
    pre: CertificateContract,
    post: CertificateContract,
    issuer: Identity,
)
    requires
        CertificateContract::revoked(pre, post, issuer),
    ensures
        !post.is_authorized(issuer),
        forall|q: CertificateContract, d: Identity, eid: Seq<char>, en: Seq<char>, dt: u64, id: u64|
            !CertificateContract::minted(post, q, issuer, d, eid, en, dt, id),
        forall|id: u64| post.cert_at(id) == pre.cert_at(id),
{
}

/// A successful mint appends exactly the new certificate to the minting
/// developer's list and leaves every other subject's list unchanged: each
/// subject's certificates are exactly those minted to it, in mint order.
pub proof fn lemma_mint_index_consistent(
    pre: CertificateContract,
    post: CertificateContract,
    issuer: Identity,
    developer: Identity,
    event_id: Seq<char>,
    event_name: Seq<char>,
    date_issued: u64,
    id: u64,
)
    requires
        pre.wf(),
        CertificateContract::minted(
            pre,
            post,
            issuer,
            developer,
            event_id,
            event_name,
            date_issued,
            id,
        ),
    ensures
        post.subject_certs(developer) == pre.subject_certs(developer).push(
            (CertificateView { issuer, event_id, event_name, date_issued }),
        ),
        forall|d: Identity|
            d != developer ==> #[trigger] post.subject_certs(d) == pre.subject_certs(d),
{
    let cv = CertificateView { issuer, event_id, event_name, date_issued };
    lemma_subject_ids_bounded(pre, developer);
    assert forall|k: int|
        0 <= k < post.subject_certs(developer).len() implies #[trigger] post.subject_certs(
        developer,
    )[k] == pre.subject_certs(developer).push(cv)[k] by {
        let pre_ids = pre.subject_ids(developer);
        if k < pre_ids.len() {
            assert(post.subject_ids(developer)[k] == pre_ids[k]);
            assert(pre_ids[k] < pre.next_id());
            assert(post.cert_at(pre_ids[k]) == pre.cert_at(pre_ids[k]));
        } else {
            assert(post.subject_ids(developer)[k] == id);
            assert(post.cert_at(id) == Some(cv));
        }
    }
    assert(post.subject_certs(developer) =~= pre.subject_certs(developer).push(cv));
    assert forall|d: Identity| d != developer implies #[trigger] post.subject_certs(d)
        == pre.subject_certs(d) by {
        lemma_subject_ids_bounded(pre, d);
        assert forall|k: int|
            0 <= k < post.subject_certs(d).len() implies #[trigger] post.subject_certs(d)[k]
            == pre.subject_certs(d)[k] by {
            let ids = pre.subject_ids(d);
            assert(ids[k] < pre.next_id());
            assert(post.cert_at(ids[k]) == pre.cert_at(ids[k]));
        }
        assert(post.subject_certs(d) =~= pre.subject_certs(d));
    }
}

} // verus!
