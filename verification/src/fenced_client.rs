//! Admission of grants on the client side: a successful acquire must carry
//! complete, exact fencing authority before an application sees it.

use crate::client::{ClientError, ErrorModel, GuardModel, LockGuard};
use crate::text;
use crate::text::{decimal, join2, join3};
use vstd::prelude::*;

verus! {

/// Largest authority value that every JSON client can represent exactly.
pub const MAX_FENCING_TOKEN: u64 = 9_007_199_254_740_991;

/// What `std`'s `Debug` makes of a text: quoted, with escapes.
pub uninterp spec fn quoted_text(s: Seq<char>) -> Seq<char>;

/// `s` as `std`'s `Debug` for `str` shows it, under the name `quoted_text`.
/// Nothing more is claimed: which characters are escaped depends on tables.
#[verifier::external_body]
fn quoted(s: &str) -> (r: String)
    ensures
        r@ == quoted_text(s@),
{
    format!("{:?}", s)
}

/// Whether a fencing token is in range.
pub open spec fn token_in_range(token: u64) -> bool {
    1 <= token <= MAX_FENCING_TOKEN
}

/// Whether a fencing token is in range.
pub fn valid_token(token: u64) -> (r: bool)
    ensures
        r == token_in_range(token),
{
    1 <= token && token <= MAX_FENCING_TOKEN
}

/// The bounds of a token, in words.
pub open spec fn outside_text() -> Seq<char> {
    " outside 1..=9007199254740991"@
}

/// What is wrong with the guard of one key.
pub open spec fn single_fault(g: GuardModel) -> Option<Seq<char>> {
    match g.fencing_token {
        None => Some("single-key grant omitted fencing_token"@),
        Some(token) => if !token_in_range(token) {
            Some("single-key fencing token "@ + text::decimal_text(token as nat) + outside_text())
        } else if g.fencing_tokens.len() != 1 || !g.fencing_tokens.dom().contains(g.keys[0])
            || g.fencing_tokens[g.keys[0]] != token {
            Some("single-key grant token map does not exactly match fencing_token"@)
        } else {
            None
        },
    }
}

/// What is wrong with one key of a composite guard.
pub open spec fn member_fault(g: GuardModel, i: int) -> Option<Seq<char>> {
    let key = g.keys[i];
    if g.keys.take(i).contains(key) {
        Some("composite grant repeated key "@ + quoted_text(key))
    } else if !g.fencing_tokens.dom().contains(key) {
        Some("composite grant omitted token for key "@ + quoted_text(key))
    } else if !token_in_range(g.fencing_tokens[key]) {
        Some("composite token for "@ + quoted_text(key) + outside_text())
    } else {
        None
    }
}

/// The first fault among the keys of a composite guard from `i` on.
pub open spec fn members_fault(g: GuardModel, i: int) -> Option<Seq<char>>
    decreases g.keys.len() - i,
{
    if 0 <= i < g.keys.len() {
        match member_fault(g, i) {
            Some(m) => Some(m),
            None => members_fault(g, i + 1),
        }
    } else {
        None
    }
}

/// What is wrong with a guard, the first thing that is.
pub open spec fn guard_fault(g: GuardModel) -> Option<Seq<char>> {
    if g.keys.len() == 0 {
        Some("grant contained no protected keys"@)
    } else if g.lock_uuid.len() == 0 {
        Some("grant omitted lock_uuid"@)
    } else if g.keys.len() == 1 {
        single_fault(g)
    } else if g.fencing_token is Some {
        Some("composite grant exposed an ambiguous scalar fencing_token"@)
    } else if g.fencing_tokens.len() != g.keys.len() {
        Some("composite grant token/key cardinality mismatch"@)
    } else {
        members_fault(g, 0)
    }
}

/// The error that a fault becomes.
pub open spec fn fault_error(fault: Seq<char>) -> ErrorModel {
    ErrorModel::Invalid("invalid fenced authority from broker: "@ + fault)
}

/// Complete, exact authority: distinct keys, a token in range for exactly these
/// keys, and a scalar token if and only if there is one key.
pub open spec fn exact_authority(g: GuardModel) -> bool {
    &&& g.keys.len() > 0
    &&& g.lock_uuid.len() > 0
    &&& g.keys.no_duplicates()
    &&& g.fencing_tokens.dom() == g.keys.to_set()
    &&& forall|key: Seq<char>| #[trigger]
        g.fencing_tokens.dom().contains(key) ==> token_in_range(g.fencing_tokens[key])
    &&& g.fencing_token == if g.keys.len() == 1 {
        Some(g.fencing_tokens[g.keys[0]])
    } else {
        None
    }
}

/// A token is in range exactly if it is positive and exact as a double-precision
/// number.
pub proof fn tokens_are_positive_and_exact(token: u64)
    ensures
        token_in_range(token) <==> 1 <= token <= 9_007_199_254_740_991,
{
}

/// A read or write grant passes exactly if it names a lock id and a token that is
/// positive and exact as a double-precision number.
pub proof fn reads_and_writes_need_a_name_and_a_token(
    lock_uuid: Seq<char>,
    token: Option<u64>,
    kind: Seq<char>,
)
    ensures
        rw_fault(lock_uuid, token, kind) is None <==> lock_uuid.len() > 0 && token is Some && 1
            <= token->0 <= 9_007_199_254_740_991,
{
}

/// Faultless members are distinct keys with tokens in range.
proof fn lemma_members(g: GuardModel, i: int)
    requires
        0 <= i <= g.keys.len(),
    ensures
        members_fault(g, i) is None <==> forall|j: int|
            i <= j < g.keys.len() ==> #[trigger] member_fault(g, j) is None,
    decreases g.keys.len() - i,
{
    if i < g.keys.len() {
        lemma_members(g, i + 1);
    }
}

/// A guard passes exactly if it carries complete, exact authority.
pub proof fn admission_is_exact(g: GuardModel)
    requires
        g.fencing_tokens.dom().finite(),
    ensures
        guard_fault(g) is None <==> exact_authority(g),
{
    let dom = g.fencing_tokens.dom();
    if g.keys.len() > 0 && g.lock_uuid.len() > 0 {
        if g.keys.len() == 1 {
            let key = g.keys[0];
            assert(g.keys =~= seq![key]);
            assert(g.keys.to_set() =~= set![key]) by {
                assert(seq![key][0] == key);
                assert forall|k: Seq<char>| g.keys.to_set().contains(k) == set![key].contains(k) by {
                    if k == key {
                        assert(g.keys[0] == k);
                    }
                }
            }
            if guard_fault(g) is None {
                lemma_only_member(dom, key);
                assert(g.keys.no_duplicates());
            }
            if exact_authority(g) {
                assert(dom.contains(key));
            }
        } else {
            lemma_members(g, 0);
            if guard_fault(g) is None {
                assert forall|i: int, j: int| 0 <= i < j < g.keys.len() implies g.keys[i]
                    != g.keys[j] by {
                    assert(member_fault(g, j) is None);
                    assert(g.keys.take(j)[i] == g.keys[i]);
                }
                assert(g.keys.no_duplicates());
                g.keys.unique_seq_to_set();
                assert(g.keys.to_set().subset_of(dom)) by {
                    assert forall|k: Seq<char>| g.keys.to_set().contains(k) implies dom.contains(
                        k,
                    ) by {
                        let j = choose|j: int| 0 <= j < g.keys.len() && g.keys[j] == k;
                        assert(member_fault(g, j) is None);
                    }
                }
                vstd::set_lib::lemma_subset_equality(g.keys.to_set(), dom);
                assert forall|k: Seq<char>| #[trigger] dom.contains(k) implies token_in_range(
                    g.fencing_tokens[k],
                ) by {
                    assert(g.keys.to_set().contains(k));
                    let j = choose|j: int| 0 <= j < g.keys.len() && g.keys[j] == k;
                    assert(member_fault(g, j) is None);
                }
            }
            if exact_authority(g) {
                g.keys.unique_seq_to_set();
                assert forall|j: int| 0 <= j < g.keys.len() implies #[trigger] member_fault(
                    g,
                    j,
                ) is None by {
                    assert(g.keys.to_set().contains(g.keys[j]));
                    if g.keys.take(j).contains(g.keys[j]) {
                        let i = choose|i: int| 0 <= i < j && g.keys.take(j)[i] == g.keys[j];
                        assert(g.keys[i] == g.keys[j]);
                    }
                }
            }
        }
    }
}

/// A set of one element holds nothing else.
proof fn lemma_only_member(s: Set<Seq<char>>, a: Seq<char>)
    requires
        s.finite(),
        s.len() == 1,
        s.contains(a),
    ensures
        s == set![a],
{
    assert(s.remove(a).len() == 0);
    assert(s.remove(a) =~= Set::<Seq<char>>::empty()) by {
        if exists|b: Seq<char>| s.remove(a).contains(b) {
            let b = choose|b: Seq<char>| s.remove(a).contains(b);
            assert(s.remove(a).remove(b).len() < s.remove(a).len());
        }
    }
    assert(s =~= set![a]);
}

fn invalid(fault: &str) -> (r: ClientError)
    ensures
        r@ == fault_error(fault@),
{
    ClientError::Invalid(join2("invalid fenced authority from broker: ", fault))
}

/// Admits a guard, or says what is wrong with it.
pub fn validate_guard(guard: &LockGuard) -> (r: Result<(), ClientError>)
    ensures
        match guard_fault(guard@) {
            None => r is Ok,
            Some(fault) => r matches Err(e) && e@ == fault_error(fault),
        },
{
    let ghost g = guard@;
    if guard.keys.len() == 0 {
        return Err(invalid("grant contained no protected keys"));
    }
    if guard.lock_uuid.as_str().is_empty() {
        return Err(invalid("grant omitted lock_uuid"));
    }
    if guard.keys.len() == 1 {
        let token = match guard.fencing_token {
            Some(token) => token,
            None => {
                return Err(invalid("single-key grant omitted fencing_token"));
            },
        };
        if !valid_token(token) {
            let fault = join3(
                "single-key fencing token ",
                decimal(token).as_str(),
                " outside 1..=9007199254740991",
            );
            return Err(invalid(fault.as_str()));
        }
        assert(g.keys[0] == guard.keys@[0]@);
        let exact = guard.fencing_tokens.len() == 1 && match guard.fencing_tokens.get(
            &guard.keys[0],
        ) {
            Some(t) => *t == token,
            None => false,
        };
        if !exact {
            return Err(
                invalid("single-key grant token map does not exactly match fencing_token"),
            );
        }
        return Ok(());
    }
    if guard.fencing_token.is_some() {
        return Err(invalid("composite grant exposed an ambiguous scalar fencing_token"));
    }
    if guard.fencing_tokens.len() != guard.keys.len() {
        return Err(invalid("composite grant token/key cardinality mismatch"));
    }
    let mut i: usize = 0;
    while i < guard.keys.len()
        invariant
            g == guard@,
            i <= guard.keys@.len(),
            members_fault(g, 0) == members_fault(g, i as int),
            guard_fault(g) == members_fault(g, 0),
        decreases guard.keys@.len() - i,
    {
        let key = &guard.keys[i];
        assert(g.keys[i as int] == key@);
        let mut j: usize = 0;
        while j < i
            invariant
                g == guard@,
                j <= i < guard.keys@.len(),
                key@ == g.keys[i as int],
                guard_fault(g) == members_fault(g, 0),
                members_fault(g, 0) == members_fault(g, i as int),
                forall|k: int| 0 <= k < j ==> g.keys[k] != key@,
            decreases i - j,
        {
            assert(g.keys[j as int] == guard.keys@[j as int]@);
            if guard.keys[j] == *key {
                assert(g.keys.take(i as int)[j as int] == key@);
                let fault = join2("composite grant repeated key ", quoted(key.as_str()).as_str());
                return Err(invalid(fault.as_str()));
            }
            j = j + 1;
        }
        assert(!g.keys.take(i as int).contains(key@));
        match guard.fencing_tokens.get(key) {
            None => {
                let fault = join2(
                    "composite grant omitted token for key ",
                    quoted(key.as_str()).as_str(),
                );
                return Err(invalid(fault.as_str()));
            },
            Some(token) => {
                if !valid_token(*token) {
                    let fault = join3(
                        "composite token for ",
                        quoted(key.as_str()).as_str(),
                        " outside 1..=9007199254740991",
                    );
                    return Err(invalid(fault.as_str()));
                }
            },
        }
        i = i + 1;
    }
    Ok(())
}

/// What is wrong with a read or write grant.
pub open spec fn rw_fault(lock_uuid: Seq<char>, token: Option<u64>, kind: Seq<char>) -> Option<
    Seq<char>,
> {
    if lock_uuid.len() == 0 {
        Some(kind + " grant omitted lock_uuid"@)
    } else {
        match token {
            None => Some(kind + " grant omitted fencing_token"@),
            Some(t) => if !token_in_range(t) {
                Some(
                    kind + " fencing token "@ + text::decimal_text(t as nat) + outside_text(),
                )
            } else {
                None
            },
        }
    }
}

/// Admits a read or write grant, or says what is wrong with it.
pub fn validate_rw_token(lock_uuid: &str, token: Option<u64>, kind: &str) -> (r: Result<
    (),
    ClientError,
>)
    ensures
        match rw_fault(lock_uuid@, token, kind@) {
            None => r is Ok,
            Some(fault) => r matches Err(e) && e@ == fault_error(fault),
        },
{
    if lock_uuid.is_empty() {
        return Err(invalid(join2(kind, " grant omitted lock_uuid").as_str()));
    }
    match token {
        None => Err(invalid(join2(kind, " grant omitted fencing_token").as_str())),
        Some(t) => {
            if !valid_token(t) {
                let fault = join3(
                    join2(kind, " fencing token ").as_str(),
                    decimal(t).as_str(),
                    " outside 1..=9007199254740991",
                );
                return Err(invalid(fault.as_str()));
            }
            Ok(())
        },
    }
}

/// Why a fenced acquire gave no guard.
pub enum FencedError<E> {
    /// The acquire itself failed.
    Acquire(E),
    /// What was granted lacks authority.
    Authority(ClientError),
}

/// What a fenced acquire gives, `raw` being what the acquire itself gave: the guard
/// if and only if nothing is wrong with it.
pub fn admit_guard<E>(raw: Result<LockGuard, E>) -> (r: Result<LockGuard, FencedError<E>>)
    ensures
        match raw {
            Err(e) => r == Err::<LockGuard, FencedError<E>>(FencedError::Acquire(e)),
            Ok(guard) => match guard_fault(guard@) {
                None => r == Ok::<LockGuard, FencedError<E>>(guard),
                Some(fault) => r matches Err(FencedError::Authority(e)) && e@ == fault_error(
                    fault,
                ),
            },
        },
        r matches Ok(guard) ==> exact_authority(guard@),
{
    match raw {
        Err(e) => Err(FencedError::Acquire(e)),
        Ok(guard) => match validate_guard(&guard) {
            Ok(_) => {
                let _ = guard.fencing_tokens.len();
                proof {
                    admission_is_exact(guard@);
                }
                Ok(guard)
            },
            Err(e) => Err(FencedError::Authority(e)),
        },
    }
}

/// What a fenced acquire without wait gives: a guard if and only if there is one
/// and nothing is wrong with it, and nothing where the lock is contended.
pub fn admit_attempt<E>(raw: Result<Option<LockGuard>, E>) -> (r: Result<
    Option<LockGuard>,
    FencedError<E>,
>)
    ensures
        match raw {
            Err(e) => r == Err::<Option<LockGuard>, FencedError<E>>(FencedError::Acquire(e)),
            Ok(None) => r == Ok::<Option<LockGuard>, FencedError<E>>(None),
            Ok(Some(guard)) => match guard_fault(guard@) {
                None => r == Ok::<Option<LockGuard>, FencedError<E>>(Some(guard)),
                Some(fault) => r matches Err(FencedError::Authority(e)) && e@ == fault_error(
                    fault,
                ),
            },
        },
        r matches Ok(Some(guard)) ==> exact_authority(guard@),
{
    match raw {
        Err(e) => Err(FencedError::Acquire(e)),
        Ok(None) => Ok(None),
        Ok(Some(guard)) => match admit_guard::<E>(Ok(guard)) {
            Ok(guard) => Ok(Some(guard)),
            Err(e) => Err(e),
        },
    }
}

/// A read or write grant, with what the transport keeps of it.
pub struct RwGrant<G> {
    pub lock_uuid: String,
    pub fencing_token: Option<u64>,
    pub guard: G,
}

/// What a fenced read or write acquire gives: the guard if and only if nothing is
/// wrong with the grant.
pub fn admit_rw<G, E>(raw: Result<RwGrant<G>, E>, kind: &str) -> (r: Result<G, FencedError<E>>)
    ensures
        match raw {
            Err(e) => r == Err::<G, FencedError<E>>(FencedError::Acquire(e)),
            Ok(grant) => match rw_fault(grant.lock_uuid@, grant.fencing_token, kind@) {
                None => r == Ok::<G, FencedError<E>>(grant.guard),
                Some(fault) => r matches Err(FencedError::Authority(e)) && e@ == fault_error(
                    fault,
                ),
            },
        },
{
    match raw {
        Err(e) => Err(FencedError::Acquire(e)),
        Ok(grant) => match validate_rw_token(
            grant.lock_uuid.as_str(),
            grant.fencing_token,
            kind,
        ) {
            Ok(_) => Ok(grant.guard),
            Err(e) => Err(FencedError::Authority(e)),
        },
    }
}

} // verus!
