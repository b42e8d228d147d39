use vstd::prelude::*;

use crate::types::Certificate;
use crate::types::CertificateView;
use crate::types::Identity;
use crate::types::RegistryError;

verus! {

/// One subject's entry in the index: the identifiers of the certificates
/// minted to that subject, in mint order.
pub struct SubjectEntry {
    pub subject: Identity,
    pub cert_ids: Vec<u64>,
}

/// The identifiers `entries` holds for `subject`: the list of the first
/// entry with that subject, or the empty sequence when there is none.
/// A well-formed registry has at most one entry per subject.
pub open spec fn ids_for(entries: Seq<SubjectEntry>, subject: Identity) -> Seq<u64>
    decreases entries.len(),
{
    if entries.len() == 0 {
        Seq::empty()
    } else if entries[0].subject == subject {
        entries[0].cert_ids@
    } else {
        ids_for(entries.skip(1), subject)
    }
}

/// `ids_for` ignores a prefix free of `subject`.
proof fn lemma_ids_for_prefix(entries: Seq<SubjectEntry>, subject: Identity, i: int)
    requires
        0 <= i <= entries.len(),
        forall|j: int| 0 <= j < i ==> entries[j].subject != subject,
    ensures
        ids_for(entries, subject) == ids_for(entries.skip(i), subject),
    decreases i,
{
    if i == 0 {
        assert(entries.skip(0) =~= entries);
    } else {
        assert forall|j: int| 0 <= j < i - 1 implies entries.skip(1)[j].subject != subject by {
            assert(entries.skip(1)[j] == entries[j + 1]);
        }
        lemma_ids_for_prefix(entries.skip(1), subject, i - 1);
        assert(entries.skip(1).skip(i - 1) =~= entries.skip(i));
    }
}

/// When the first entry for `subject` sits at `i`, `ids_for` is its list.
proof fn lemma_ids_for_found(entries: Seq<SubjectEntry>, subject: Identity, i: int)
    requires
        0 <= i < entries.len(),
        entries[i].subject == subject,
        forall|j: int| 0 <= j < i ==> entries[j].subject != subject,
    ensures
        ids_for(entries, subject) == entries[i].cert_ids@,
{
    lemma_ids_for_prefix(entries, subject, i);
    assert(entries.skip(i)[0] == entries[i]);
}

/// When no entry is for `subject`, `ids_for` is empty.
proof fn lemma_ids_for_absent(entries: Seq<SubjectEntry>, subject: Identity)
    requires
        forall|j: int| 0 <= j < entries.len() ==> entries[j].subject != subject,
    ensures
        ids_for(entries, subject) == Seq::<u64>::empty(),
{
    lemma_ids_for_prefix(entries, subject, entries.len() as int);
    assert(entries.skip(entries.len() as int) =~= Seq::<SubjectEntry>::empty());
}

/// `ids_for` only reads the entries whose subject is `d`: two entry lists
/// with the same subjects in the same order, agreeing on those entries,
/// hold the same identifiers for `d`.
proof fn lemma_ids_for_same_entries(a: Seq<SubjectEntry>, b: Seq<SubjectEntry>, d: Identity)
    requires
        a.len() == b.len(),
        forall|j: int| 0 <= j < a.len() ==> (#[trigger] b[j]).subject == a[j].subject,
        forall|j: int| 0 <= j < a.len() && (#[trigger] a[j]).subject == d ==> b[j] == a[j],
    ensures
        ids_for(a, d) == ids_for(b, d),
    decreases a.len(),
{
    if a.len() > 0 && a[0].subject != d {
        assert forall|j: int| 0 <= j < a.skip(1).len() implies (#[trigger] b.skip(1)[j]).subject
            == a.skip(1)[j].subject by {
            assert(a.skip(1)[j] == a[j + 1]);
            assert(b.skip(1)[j] == b[j + 1]);
        }
        assert forall|j: int|
            0 <= j < a.skip(1).len() && (#[trigger] a.skip(1)[j]).subject == d implies b.skip(1)[j]
            == a.skip(1)[j] by {
            assert(a.skip(1)[j] == a[j + 1]);
            assert(b.skip(1)[j] == b[j + 1]);
        }
        lemma_ids_for_same_entries(a.skip(1), b.skip(1), d);
    }
}

/// Appending an entry for another subject leaves `ids_for` unchanged.
proof fn lemma_ids_for_push_other(entries: Seq<SubjectEntry>, e: SubjectEntry, d: Identity)
    requires
        e.subject != d,
    ensures
        ids_for(entries.push(e), d) == ids_for(entries, d),
    decreases entries.len(),
{
    if entries.len() == 0 {
        assert(entries.push(e)[0] == e);
        assert(entries.push(e).skip(1) =~= entries);
    } else {
        assert(entries.push(e)[0] == entries[0]);
        if entries[0].subject != d {
            assert(entries.push(e).skip(1) =~= entries.skip(1).push(e));
            lemma_ids_for_push_other(entries.skip(1), e, d);
        }
    }
}

/// The issuance registry: the admin, the authorized issuers, the certificate
/// store and the per-subject index.  The host that persists this value must
/// serialize mutating operations on it; each operation here runs to
/// completion on an exclusive borrow.
pub struct CertificateContract {
    /// The admin, set exactly once by `initialize`.
    pub admin: Option<Identity>,
    /// The next identifier to hand out; always the number of certificates
    /// stored, so identifiers are `0, 1, 2, ...` in mint order.
    pub counter: u64,
    /// The certificate with identifier `i` sits at position `i`.
    pub certificates: Vec<Certificate>,
    /// The issuers currently allowed to mint, each listed once.
    pub authorized: Vec<Identity>,
    /// The subject index, one entry per subject.
    pub subjects: Vec<SubjectEntry>,
}

impl CertificateContract {
    /// Internal invariant, established by `new` and kept by every operation.
    pub open spec fn wf(self) -> bool {
        &&& self.counter == self.certificates@.len()
        &&& forall|i: int, j: int|
            0 <= i < j < self.authorized@.len()
                ==> #[trigger] self.authorized@[i] != #[trigger] self.authorized@[j]
        &&& forall|i: int, j: int|
            0 <= i < j < self.subjects@.len()
                ==> #[trigger] self.subjects@[i].subject != #[trigger] self.subjects@[j].subject
        &&& forall|i: int, k: int|
            0 <= i < self.subjects@.len() && 0 <= k < self.subjects@[i].cert_ids@.len()
                ==> #[trigger] self.subjects@[i].cert_ids@[k] < self.counter
        &&& forall|i: int, k: int, l: int|
            0 <= i < self.subjects@.len() && 0 <= k < l < self.subjects@[i].cert_ids@.len()
                ==> #[trigger] self.subjects@[i].cert_ids@[k]
                    < #[trigger] self.subjects@[i].cert_ids@[l]
        &&& self.admin is None ==> {
            &&& self.counter == 0
            &&& self.authorized@.len() == 0
            &&& self.subjects@.len() == 0
        }
    }

    /// The admin identity, present exactly when `initialize` has run.
    pub open spec fn admin_id(self) -> Option<Identity> {
        self.admin
    }

    pub open spec fn is_initialized(self) -> bool {
        self.admin is Some
    }

    /// The identifier the next successful mint returns.
    pub open spec fn next_id(self) -> u64 {
        self.counter
    }

    /// How many certificates have been minted.
    pub open spec fn cert_count(self) -> nat {
        self.certificates@.len()
    }

    /// Whether `issuer` may currently mint.
    pub open spec fn is_authorized(self, issuer: Identity) -> bool {
        self.authorized@.contains(issuer)
    }

    /// The certificate minted under `id`, if any.
    pub open spec fn cert_at(self, id: u64) -> Option<CertificateView> {
        if id < self.certificates@.len() {
            Some(self.certificates@[id as int]@)
        } else {
            None
        }
    }

    /// The identifiers of the certificates minted to `subject`, in mint order.
    pub open spec fn subject_ids(self, subject: Identity) -> Seq<u64> {
        ids_for(self.subjects@, subject)
    }

    /// The certificates minted to `subject`, in mint order.
    pub open spec fn subject_certs(self, subject: Identity) -> Seq<CertificateView> {
        self.subject_ids(subject).map(|k: int, id: u64| self.certificates@[id as int]@)
    }

    /// Whether `subject` holds a certificate from `issuer` for the event
    /// named `event_id`.
    pub open spec fn holds_certificate(
        self,
        subject: Identity,
        issuer: Identity,
        event_id: Seq<char>,
    ) -> bool {
        exists|k: int|
            0 <= k < self.subject_certs(subject).len()
                && (#[trigger] self.subject_certs(subject)[k]).issuer == issuer
                && self.subject_certs(subject)[k].event_id == event_id
    }

    /// The effect of a successful `initialize(caller, admin)` call, relating
    /// the registry before to the registry after.
    pub open spec fn initialized_with(pre: Self, post: Self, admin: Identity) -> bool {
        &&& !pre.is_initialized()
        &&& post.admin_id() == Some(admin)
        &&& post.next_id() == 0
        &&& post.cert_count() == 0
        &&& forall|x: Identity| !post.is_authorized(x)
        &&& forall|d: Identity| post.subject_ids(d) == pre.subject_ids(d)
    }

    /// The effect of a successful `authorize_issuer(caller, issuer)` call.
    pub open spec fn granted(pre: Self, post: Self, issuer: Identity) -> bool {
        &&& forall|x: Identity|
            post.is_authorized(x) == (x == issuer || pre.is_authorized(x))
        &&& post.admin_id() == pre.admin_id()
        &&& post.next_id() == pre.next_id()
        &&& post.cert_count() == pre.cert_count()
        &&& forall|id: u64| post.cert_at(id) == pre.cert_at(id)
        &&& forall|d: Identity| post.subject_ids(d) == pre.subject_ids(d)
        &&& post.subjects == pre.subjects
        &&& post.certificates == pre.certificates
    }

    /// The effect of a successful `revoke_issuer(caller, issuer)` call.
    pub open spec fn revoked(pre: Self, post: Self, issuer: Identity) -> bool {
        &&& forall|x: Identity|
            post.is_authorized(x) == (x != issuer && pre.is_authorized(x))
        &&& post.admin_id() == pre.admin_id()
        &&& post.next_id() == pre.next_id()
        &&& post.cert_count() == pre.cert_count()
        &&& forall|id: u64| post.cert_at(id) == pre.cert_at(id)
        &&& forall|d: Identity| post.subject_ids(d) == pre.subject_ids(d)
        &&& post.subjects == pre.subjects
        &&& post.certificates == pre.certificates
    }

    /// The effect of a successful
    /// `mint_certificate(caller, issuer, developer, ...)` call returning
    /// `id`: the new certificate is stored under `id`, the identifier is
    /// appended to the developer's list, and nothing else changes.
    pub open spec fn minted(
        pre: Self,
        post: Self,
        issuer: Identity,
        developer: Identity,
        event_id: Seq<char>,
        event_name: Seq<char>,
        date_issued: u64,
        id: u64,
    ) -> bool {
        &&& pre.is_authorized(issuer)
        &&& id == pre.next_id()
        &&& post.next_id() == pre.next_id() + 1
        &&& post.cert_count() == pre.cert_count() + 1
        &&& post.cert_at(id) == Some(
            CertificateView { issuer, event_id, event_name, date_issued },
        )
        &&& forall|j: u64| j != id ==> post.cert_at(j) == pre.cert_at(j)
        &&& post.subject_ids(developer) == pre.subject_ids(developer).push(id)
        &&& forall|d: Identity| d != developer ==> post.subject_ids(d) == pre.subject_ids(d)
        &&& forall|x: Identity| post.is_authorized(x) == pre.is_authorized(x)
        &&& post.admin_id() == pre.admin_id()
    }

    /// An empty, uninitialized registry.
    pub fn new() -> (r: CertificateContract)
        ensures
            r.wf(),
            !r.is_initialized(),
            r.next_id() == 0,
            r.cert_count() == 0,
            forall|x: Identity| !r.is_authorized(x),
            forall|d: Identity| r.subject_ids(d) == Seq::<u64>::empty(),
    {
        CertificateContract {
            admin: None,
            counter: 0,
            certificates: Vec::new(),
            authorized: Vec::new(),
            subjects: Vec::new(),
        }
    }

    /// Whether `issuer` is in the authorized list.
    fn contains_issuer(&self, issuer: Identity) -> (r: bool)
        ensures
            r == self.is_authorized(issuer),
    {
        let mut i: usize = 0;
        while i < self.authorized.len()
            invariant
                i <= self.authorized@.len(),
                forall|j: int| 0 <= j < i ==> self.authorized@[j] != issuer,
            decreases self.authorized@.len() - i,
        {
            if self.authorized[i] == issuer {
                assert(self.authorized@[i as int] == issuer);
                return true;
            }
            i = i + 1;
        }
        false
    }

    /// The position of `subject`'s entry in the index, if it has one.
    fn find_subject_index(&self, subject: Identity) -> (r: Option<usize>)
        ensures
            match r {
                Some(i) => i < self.subjects@.len() && self.subjects@[i as int].subject == subject
                    && (forall|j: int| 0 <= j < i ==> self.subjects@[j].subject != subject),
                None => forall|j: int|
                    0 <= j < self.subjects@.len() ==> self.subjects@[j].subject != subject,
            },
    {
        let mut i: usize = 0;
        while i < self.subjects.len()
            invariant
                i <= self.subjects@.len(),
                forall|j: int| 0 <= j < i ==> self.subjects@[j].subject != subject,
            decreases self.subjects@.len() - i,
        {
            if self.subjects[i].subject == subject {
                return Some(i);
            }
            i = i + 1;
        }
        None
    }

    /// Sets the admin and resets the identifier counter.  Fails with
    /// `Authentication` unless the caller is `admin` itself, and with
    /// `AlreadyInitialized` when an admin is already set; a failed call
    /// changes nothing.
    pub fn initialize(&mut self, caller: Identity, admin: Identity) -> (r: Result<
        (),
        RegistryError,
    >)
        requires
            old(self).wf(),
        ensures
            final(self).wf(),
            r is Ok <==> (caller == admin && !old(self).is_initialized()),
            r is Ok ==> Self::initialized_with(*old(self), *final(self), admin),
            r matches Err(e) ==> *final(self) == *old(self) && e == (if caller != admin {
                RegistryError::Authentication
            } else {
                RegistryError::AlreadyInitialized
            }),
    {
        if caller != admin {
            return Err(RegistryError::Authentication);
        }
        if self.admin.is_some() {
            return Err(RegistryError::AlreadyInitialized);
        }
        self.admin = Some(admin);
        self.counter = 0;
        Ok(())
    }

    /// Adds `issuer` to the authorized set; authorizing an issuer twice is
    /// not an error.  Fails with `NotInitialized` before `initialize`, and
    /// with `Authentication` unless the caller is the stored admin; a failed
    /// call changes nothing.
    pub fn authorize_issuer(&mut self, caller: Identity, issuer: Identity) -> (r: Result<
        (),
        RegistryError,
    >)
        requires
            old(self).wf(),
        ensures
            final(self).wf(),
            r is Ok <==> old(self).admin_id() == Some(caller),
            r is Ok ==> Self::granted(*old(self), *final(self), issuer),
            r matches Err(e) ==> *final(self) == *old(self) && e == (
            if !old(self).is_initialized() {
                RegistryError::NotInitialized
            } else {
                RegistryError::Authentication
            }),
    {
        let admin = match self.admin {
            None => { return Err(RegistryError::NotInitialized); },
            Some(a) => a,
        };
        if caller != admin {
            return Err(RegistryError::Authentication);
        }
        if !self.contains_issuer(issuer) {
            self.authorized.push(issuer);
            proof {
                let s_old = old(self).authorized@;
                let s_new = self.authorized@;
                assert forall|x: Identity|
                    self.is_authorized(x) == (x == issuer || old(self).is_authorized(x)) by {
                    if x == issuer {
                        assert(s_new[s_old.len() as int] == x);
                        assert(s_new.contains(x));
                    }
                    if old(self).is_authorized(x) {
                        let k = choose|k: int| 0 <= k < s_old.len() && s_old[k] == x;
                        assert(s_new[k] == x);
                        assert(s_new.contains(x));
                    }
                    if self.is_authorized(x) && x != issuer {
                        let k = choose|k: int| 0 <= k < s_new.len() && s_new[k] == x;
                        assert(k < s_old.len());
                        assert(s_old.contains(x));
                    }
                }
                assert forall|i: int, j: int| 0 <= i < j < s_new.len() implies s_new[i]
                    != s_new[j] by {
                    if j == s_old.len() {
                        assert(!s_old.contains(issuer));
                        assert(s_new[i] == s_old[i]);
                    }
                }
            }
        }
        Ok(())
    }

    /// Removes `issuer` from the authorized set; revoking an issuer that is
    /// not authorized is not an error.  Certificates already minted are
    /// untouched.  Fails with `NotInitialized` before `initialize`, and with
    /// `Authentication` unless the caller is the stored admin; a failed call
    /// changes nothing.
    pub fn revoke_issuer(&mut self, caller: Identity, issuer: Identity) -> (r: Result<
        (),
        RegistryError,
    >)
        requires
            old(self).wf(),
        ensures
            final(self).wf(),
            r is Ok <==> old(self).admin_id() == Some(caller),
            r is Ok ==> Self::revoked(*old(self), *final(self), issuer),
            r matches Err(e) ==> *final(self) == *old(self) && e == (
            if !old(self).is_initialized() {
                RegistryError::NotInitialized
            } else {
                RegistryError::Authentication
            }),
    {
        let admin = match self.admin {
            None => { return Err(RegistryError::NotInitialized); },
            Some(a) => a,
        };
        if caller != admin {
            return Err(RegistryError::Authentication);
        }
        let mut i: usize = 0;
        while i < self.authorized.len()
            invariant
                old(self).wf(),
                old(self).admin_id() == Some(caller),
                *self == *old(self),
                i <= self.authorized@.len(),
                forall|j: int| 0 <= j < i ==> self.authorized@[j] != issuer,
            decreases self.authorized@.len() - i,
        {
            if self.authorized[i] == issuer {
                self.authorized.remove(i);
                proof {
                    let s_old = old(self).authorized@;
                    let s_new = self.authorized@;
                    s_old.remove_ensures(i as int);
                    assert(s_old[i as int] == issuer);
                    assert(s_new == s_old.remove(i as int));
                    assert forall|t: int| 0 <= t < s_new.len() implies s_new[t] == (if t < i {
                        s_old[t]
                    } else {
                        s_old[t + 1]
                    }) by {
                        assert(s_old.remove(i as int)[t] == s_new[t]);
                    }
                    assert forall|x: Identity|
                        self.is_authorized(x) == (x != issuer && old(self).is_authorized(
                            x,
                        )) by {
                        if s_new.contains(x) {
                            let k = choose|k: int| 0 <= k < s_new.len() && s_new[k] == x;
                            if k < i {
                                assert(s_old[k] == x);
                            } else {
                                assert(s_old[k + 1] == x);
                            }
                            assert(s_old.contains(x));
                            assert(x != issuer);
                        }
                        if x != issuer && old(self).is_authorized(x) {
                            let k = choose|k: int| 0 <= k < s_old.len() && s_old[k] == x;
                            if k < i {
                                assert(s_new[k] == x);
                            } else {
                                assert(k > i);
                                assert(s_new[k - 1] == x);
                            }
                            assert(s_new.contains(x));
                        }
                    }
                    assert forall|p: int, q: int| 0 <= p < q < s_new.len() implies s_new[p]
                        != s_new[q] by {
                        let p_old: int = if p < i { p } else { p + 1 };
                        let q_old: int = if q < i { q } else { q + 1 };
                        assert(s_new[p] == s_old[p_old]);
                        assert(s_new[q] == s_old[q_old]);
                    }
                }
                return Ok(());
            }
            i = i + 1;
        }
        Ok(())
    }

    /// Mints a certificate: stores it under the next identifier, appends
    /// that identifier to the developer's list, and returns it.  Fails with
    /// `Authentication` unless the caller is `issuer` itself, and with
    /// `UnauthorizedIssuer` when `issuer` is not in the authorized set; a
    /// failed call changes nothing.
    pub fn mint_certificate(
        &mut self,
        caller: Identity,
        issuer: Identity,
        developer: Identity,
        event_id: String,
        event_name: String,
        date_issued: u64,
    ) -> (r: Result<u64, RegistryError>)
        requires
            old(self).wf(),
        ensures
            final(self).wf(),
            r is Ok <==> (caller == issuer && old(self).is_authorized(issuer)),
            r matches Ok(id) ==> Self::minted(
                *old(self),
                *final(self),
                issuer,
                developer,
                event_id@,
                event_name@,
                date_issued,
                id,
            ),
            r matches Err(e) ==> *final(self) == *old(self) && e == (if caller != issuer {
                RegistryError::Authentication
            } else {
                RegistryError::UnauthorizedIssuer
            }),
    {
        if caller != issuer {
            return Err(RegistryError::Authentication);
        }
        if !self.contains_issuer(issuer) {
            return Err(RegistryError::UnauthorizedIssuer);
        }
        proof {
            if old(self).admin is None {
                let k = choose|k: int|
                    0 <= k < old(self).authorized@.len() && old(self).authorized@[k] == issuer;
                assert(false);
            }
        }
        let cert_id: u64 = self.counter;
        let certificate = Certificate { issuer, event_id, event_name, date_issued };
        self.certificates.push(certificate);
        self.counter = self.certificates.len() as u64;
        match self.find_subject_index(developer) {
            Some(i) => {
                self.subjects[i].cert_ids.push(cert_id);
                proof {
                    let a = old(self).subjects@;
                    let b = self.subjects@;
                    assert(b[i as int].cert_ids@ == a[i as int].cert_ids@.push(cert_id));
                    lemma_ids_for_found(a, developer, i as int);
                    lemma_ids_for_found(b, developer, i as int);
                    assert forall|d: Identity| d != developer implies ids_for(b, d) == ids_for(
                        a,
                        d,
                    ) by {
                        lemma_ids_for_same_entries(a, b, d);
                    }
                    assert forall|p: int, k: int|
                        0 <= p < b.len() && 0 <= k < b[p].cert_ids@.len() implies #[trigger] b[p].cert_ids@[k]
                        < self.counter by {
                        if p == i {
                            if k < a[p].cert_ids@.len() {
                                assert(b[p].cert_ids@[k] == a[p].cert_ids@[k]);
                            } else {
                                assert(b[p].cert_ids@[k] == cert_id);
                            }
                        } else {
                            assert(b[p] == a[p]);
                        }
                    }
                    assert forall|p: int, k: int, l: int|
                        0 <= p < b.len() && 0 <= k < l < b[p].cert_ids@.len() implies #[trigger] b[p].cert_ids@[k]
                        < #[trigger] b[p].cert_ids@[l] by {
                        if p == i {
                            if l < a[p].cert_ids@.len() {
                                assert(b[p].cert_ids@[k] == a[p].cert_ids@[k]);
                                assert(b[p].cert_ids@[l] == a[p].cert_ids@[l]);
                            } else {
                                assert(b[p].cert_ids@[k] == a[p].cert_ids@[k]);
                                assert(b[p].cert_ids@[l] == cert_id);
                                assert(a[p].cert_ids@[k] < old(self).counter);
                            }
                        } else {
                            assert(b[p] == a[p]);
                        }
                    }
                }
            },
            None => {
                let mut ids: Vec<u64> = Vec::new();
                ids.push(cert_id);
                let ghost ids_snap = ids@;
                self.subjects.push(SubjectEntry { subject: developer, cert_ids: ids });
                proof {
                    let a = old(self).subjects@;
                    let b = self.subjects@;
                    let e = b[a.len() as int];
                    assert(b == a.push(e));
                    assert(e.cert_ids@ == ids_snap);
                    lemma_ids_for_absent(a, developer);
                    lemma_ids_for_prefix(b, developer, a.len() as int);
                    assert(b.skip(a.len() as int)[0] == e);
                    assert(self.subject_ids(developer) == ids_snap);
                    assert(ids_snap == old(self).subject_ids(developer).push(cert_id));
                    assert forall|d: Identity| d != developer implies ids_for(b, d) == ids_for(
                        a,
                        d,
                    ) by {
                        lemma_ids_for_push_other(a, e, d);
                    }
                    assert forall|p: int, k: int|
                        0 <= p < b.len() && 0 <= k < b[p].cert_ids@.len() implies #[trigger] b[p].cert_ids@[k]
                        < self.counter by {
                        if p < a.len() {
                            assert(b[p] == a[p]);
                        } else {
                            assert(b[p].cert_ids@[k] == cert_id);
                        }
                    }
                    assert forall|p: int, k: int, l: int|
                        0 <= p < b.len() && 0 <= k < l < b[p].cert_ids@.len() implies #[trigger] b[p].cert_ids@[k]
                        < #[trigger] b[p].cert_ids@[l] by {
                        if p < a.len() {
                            assert(b[p] == a[p]);
                        }
                    }
                    assert forall|p: int, q: int|
                        0 <= p < q < b.len() implies #[trigger] b[p].subject != #[trigger] b[q].subject by {
                        if q < a.len() {
                            assert(b[p] == a[p]);
                            assert(b[q] == a[q]);
                        } else {
                            assert(b[p] == a[p]);
                            assert(b[q] == e);
                        }
                    }
                }
            },
        }
        Ok(cert_id)
    }

    /// Looks a certificate up by identifier; `None` when `cert_id` was
    /// never minted, rather than an error.
    pub fn get_certificate(&self, cert_id: u64) -> (r: Option<Certificate>)
        requires
            self.wf(),
        ensures
            match r {
                Some(c) => self.cert_at(cert_id) == Some(c@),
                None => self.cert_at(cert_id) is None,
            },
    {
        let n: usize = self.certificates.len();
        if cert_id < n as u64 {
            let i: usize = cert_id as usize;
            Some(self.certificates[i].clone())
        } else {
            None
        }
    }

    /// All certificates minted to `developer`, in mint order; empty when
    /// the subject holds none.  An identifier without a backing record is
    /// skipped rather than failing the query, though a well-formed registry
    /// has no such identifier.
    pub fn get_certificates(&self, developer: Identity) -> (r: Vec<Certificate>)
        requires
            self.wf(),
        ensures
            r@.len() == self.subject_certs(developer).len(),
            forall|k: int|
                0 <= k < r@.len() ==> #[trigger] r@[k]@ == self.subject_certs(developer)[k],
    {
        let mut out: Vec<Certificate> = Vec::new();
        let i = match self.find_subject_index(developer) {
            None => {
                proof {
                    lemma_ids_for_absent(self.subjects@, developer);
                }
                return out;
            },
            Some(i) => i,
        };
        proof {
            lemma_ids_for_found(self.subjects@, developer, i as int);
        }
        let ids = &self.subjects[i].cert_ids;
        let mut k: usize = 0;
        while k < ids.len()
            invariant
                self.wf(),
                i < self.subjects@.len(),
                ids@ == self.subjects@[i as int].cert_ids@,
                ids@ == self.subject_ids(developer),
                k <= ids@.len(),
                out@.len() == k,
                forall|t: int|
                    0 <= t < k ==> #[trigger] out@[t]@ == self.certificates@[ids@[t] as int]@,
            decreases ids@.len() - k,
        {
            let id = ids[k];
            match self.get_certificate(id) {
                Some(c) => { out.push(c); },
                None => {},
            }
            k = k + 1;
        }
        out
    }

    /// Whether `developer` holds a certificate from `issuer` for the event
    /// named `event_id`: a membership query over `get_certificates`.
    pub fn verify_certificate(&self, developer: Identity, issuer: Identity, event_id: &String) -> (r:
        bool)
        requires
            self.wf(),
        ensures
            r == self.holds_certificate(developer, issuer, event_id@),
    {
        let certificates = self.get_certificates(developer);
        let mut k: usize = 0;
        while k < certificates.len()
            invariant
                self.wf(),
                certificates@.len() == self.subject_certs(developer).len(),
                forall|t: int|
                    0 <= t < certificates@.len() ==> #[trigger] certificates@[t]@
                        == self.subject_certs(developer)[t],
                k <= certificates@.len(),
                forall|t: int|
                    0 <= t < k ==> !((#[trigger] self.subject_certs(developer)[t]).issuer == issuer
                        && self.subject_certs(developer)[t].event_id == event_id@),
            decreases certificates@.len() - k,
        {
            let c = &certificates[k];
            proof {
                assert(certificates@[k as int]@ == self.subject_certs(developer)[k as int]);
            }
            if c.issuer == issuer && c.event_id == *event_id {
                return true;
            }
            k = k + 1;
        }
        false
    }
}

} // verus!
