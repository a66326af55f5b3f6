//! Where the HTTP transport may listen: on loopback addresses only.
use crate::permissions::SetupError;
use crate::text;
use vstd::prelude::*;

verus! {

broadcast use vstd::string::group_string_axioms;

/// An internet address.
#[derive(Debug)]
pub enum IpAddress {
    /// Version four, as its four bytes.
    V4(u8, u8, u8, u8),
    /// Version six, as its eight groups.
    V6(u16, u16, u16, u16, u16, u16, u16, u16),
}

impl IpAddress {
    /// Whether the address reaches this machine only: any address that begins
    /// with 127, or `::1`.
    pub open spec fn loopback(self) -> bool {
        match self {
            IpAddress::V4(first, _, _, _) => first == 127,
            IpAddress::V6(a, b, c, d, e, f, g, h) => a == 0 && b == 0 && c == 0 && d == 0 && e == 0
                && f == 0 && g == 0 && h == 1,
        }
    }

    /// Whether the address reaches this machine only.
    pub fn is_loopback(&self) -> (yes: bool)
        ensures
            yes == self.loopback(),
    {
        match self {
            IpAddress::V4(first, _, _, _) => *first == 127,
            IpAddress::V6(a, b, c, d, e, f, g, h) => *a == 0 && *b == 0 && *c == 0 && *d == 0 && *e
                == 0 && *f == 0 && *g == 0 && *h == 1,
        }
    }

    /// Whether the address is of version four.
    pub fn is_ipv4(&self) -> (yes: bool)
        ensures
            yes == (self is V4),
    {
        match self {
            IpAddress::V4(_, _, _, _) => true,
            IpAddress::V6(_, _, _, _, _, _, _, _) => false,
        }
    }
}

/// An address with its text.
#[derive(Debug)]
pub struct BindAddress {
    /// The address.
    pub address: IpAddress,
    /// Its text.
    pub shown: String,
}

/// The first address from index `k` on that is not loopback.
pub open spec fn first_outside(addrs: Seq<BindAddress>, k: int) -> Option<int>
    decreases addrs.len() - k,
{
    if k < 0 || k >= addrs.len() {
        None
    } else if !addrs[k].address.loopback() {
        Some(k)
    } else {
        first_outside(addrs, k + 1)
    }
}

/// The preferred one from index `k` on: the first of version four, or else
/// the first of all.
pub open spec fn preferred_from(addrs: Seq<BindAddress>, k: int) -> int
    decreases addrs.len() - k,
{
    if k < 0 || k >= addrs.len() {
        0
    } else if addrs[k].address is V4 {
        k
    } else {
        preferred_from(addrs, k + 1)
    }
}

/// The index of the preferred address: the first of version four, for the
/// sake of clients, or else the first of all.
pub fn address_preference(addrs: &Vec<BindAddress>) -> (index: usize)
    requires
        addrs@.len() > 0,
    ensures
        index == preferred_from(addrs@, 0),
        index < addrs@.len(),
{
    for k in 0..addrs.len()
        invariant
            preferred_from(addrs@, k as int) == preferred_from(addrs@, 0),
    {
        if addrs[k].address.is_ipv4() {
            return k;
        }
    }
    0
}

/// What comes of the addresses that `localhost` resolves to: the index of
/// the one to listen on, or the refusal.
pub open spec fn localhost_choice(addrs: Seq<BindAddress>) -> Result<int, Seq<char>> {
    if addrs.len() == 0 {
        Err("'localhost' did not resolve to any address."@)
    } else {
        match first_outside(addrs, 0) {
            Some(k) => Err(
                "'localhost' resolves to "@ + addrs[k].shown@
                    + ", which is not a loopback address. nian-workspace only binds loopback (127.0.0.1 / ::1); use an external secure tunnel for remote access."@,
            ),
            None => Ok(preferred_from(addrs, 0)),
        }
    }
}

/// Chooses among the addresses that `localhost` resolves to. Every one of
/// them must be loopback.
pub fn choose_localhost(addrs: &Vec<BindAddress>) -> (result: Result<usize, SetupError>)
    ensures
        match result {
            Ok(index) => localhost_choice(addrs@) == Ok::<int, Seq<char>>(index as int) && index
                < addrs@.len(),
            Err(e) => localhost_choice(addrs@) == Err::<int, Seq<char>>(e.0@),
        },
{
    if addrs.len() == 0 {
        return Err(SetupError::msg("'localhost' did not resolve to any address."));
    }
    for k in 0..addrs.len()
        invariant
            addrs@.len() > 0,
            first_outside(addrs@, k as int) == first_outside(addrs@, 0),
    {
        if !addrs[k].address.is_loopback() {
            return Err(
                SetupError(
                    String::from_str("'localhost' resolves to ").concat(
                        addrs[k].shown.as_str(),
                    ).concat(
                        ", which is not a loopback address. nian-workspace only binds loopback (127.0.0.1 / ::1); use an external secure tunnel for remote access.",
                    ),
                ),
            );
        }
    }
    Ok(address_preference(addrs))
}

/// The refusal of an address that is not loopback.
pub open spec fn refused_bind_text(shown: Seq<char>) -> Seq<char> {
    "Refusing to bind "@ + shown
        + ": nian-workspace only binds loopback addresses (127.0.0.1 / ::1). It has no authentication, and remote clients would gain full tool access to your filesystem. Use an external secure tunnel for remote access."@
}

/// Whether `addrs` is what `look_up` may give for a host.
pub open spec fn looked_up<R: Fn(&str) -> Result<Vec<BindAddress>, String>>(
    look_up: R,
    host: Seq<char>,
    addrs: Result<Vec<BindAddress>, String>,
) -> bool {
    exists|given: &str| given@ == host && #[trigger] call_ensures(look_up, (given,), addrs)
}

/// Whether `parsed` is what `parse` may give for a host.
pub open spec fn parsed_as<P: Fn(&str) -> Result<BindAddress, String>>(
    parse: P,
    host: Seq<char>,
    parsed: Result<BindAddress, String>,
) -> bool {
    exists|given: &str| given@ == host && #[trigger] call_ensures(parse, (given,), parsed)
}

/// Turns a host into the address to listen on. `localhost` is looked up, and
/// every address that comes back must be loopback; anything else must be the
/// text of a loopback address.
pub fn resolve_loopback_bind<
    R: Fn(&str) -> Result<Vec<BindAddress>, String>,
    P: Fn(&str) -> Result<BindAddress, String>,
>(host: &str, look_up: &R, parse: &P) -> (result: Result<BindAddress, SetupError>)
    requires
        forall|given: &str| call_requires(look_up, (given,)),
        forall|given: &str| call_requires(parse, (given,)),
    ensures
        host@ == "localhost"@ ==> exists|addrs: Result<Vec<BindAddress>, String>| #[trigger]
            looked_up(*look_up, host@, addrs) && match addrs {
                Err(reason) => result matches Err(e) && e.0@ == "failed to resolve '"@ + host@
                    + "': "@ + reason@,
                Ok(list) => match localhost_choice(list@) {
                    Err(refusal) => result matches Err(e) && e.0@ == refusal,
                    Ok(index) => result matches Ok(chosen) && chosen == list@[index],
                },
            },
        host@ != "localhost"@ ==> exists|parsed: Result<BindAddress, String>| #[trigger]
            parsed_as(*parse, host@, parsed) && match parsed {
                Err(reason) => result matches Err(e) && e.0@ == "invalid bind host '"@ + host@
                    + "': "@ + reason@,
                Ok(found) => if found.address.loopback() {
                    result matches Ok(chosen) && chosen == found
                } else {
                    result matches Err(e) && e.0@ == refused_bind_text(found.shown@)
                },
            },
        result matches Ok(chosen) ==> chosen.address.loopback(),
{
    if text::same_text(host, "localhost") {
        let addrs: Result<Vec<BindAddress>, String> = look_up(host);
        assert(looked_up(*look_up, host@, addrs));
        let mut list: Vec<BindAddress> = match addrs {
            Ok(list) => list,
            Err(reason) => {
                return Err(
                    SetupError(
                        String::from_str("failed to resolve '").concat(host).concat("': ").concat(
                            reason.as_str(),
                        ),
                    ),
                );
            },
        };
        match choose_localhost(&list) {
            Err(e) => Err(e),
            Ok(index) => {
                proof {
                    lemma_all_inside(list@, 0, index as int);
                }
                Ok(list.swap_remove(index))
            },
        }
    } else {
        let parsed: Result<BindAddress, String> = parse(host);
        assert(parsed_as(*parse, host@, parsed));
        match parsed {
            Err(reason) => Err(
                SetupError(
                    String::from_str("invalid bind host '").concat(host).concat("': ").concat(
                        reason.as_str(),
                    ),
                ),
            ),
            Ok(found) => {
                if found.address.is_loopback() {
                    Ok(found)
                } else {
                    Err(
                        SetupError(
                            String::from_str("Refusing to bind ").concat(
                                found.shown.as_str(),
                            ).concat(
                                ": nian-workspace only binds loopback addresses (127.0.0.1 / ::1). It has no authentication, and remote clients would gain full tool access to your filesystem. Use an external secure tunnel for remote access.",
                            ),
                        ),
                    )
                }
            },
        }
    }
}

proof fn lemma_all_inside(addrs: Seq<BindAddress>, k: int, i: int)
    requires
        0 <= k <= i < addrs.len(),
        first_outside(addrs, k) is None,
    ensures
        addrs[i].address.loopback(),
    decreases i - k,
{
    if k < i {
        lemma_all_inside(addrs, k + 1, i);
    }
}

/// `localhost` is listened on exactly where it resolves to loopback addresses
/// and to nothing else, and then on the first of version four, or on the
/// first of all where there is none.
pub proof fn law_localhost_is_loopback_only(addrs: Seq<BindAddress>)
    ensures
        localhost_choice(addrs) is Ok <==> addrs.len() > 0 && forall|i: int|
            0 <= i < addrs.len() ==> (#[trigger] addrs[i]).address.loopback(),
        localhost_choice(addrs) matches Ok(k) ==> 0 <= k < addrs.len() && (addrs[k].address is V4 || k
            == 0) && (forall|i: int| 0 <= i < k ==> !((#[trigger] addrs[i]).address is V4)) && (!(
        addrs[k].address is V4) ==> forall|i: int|
            0 <= i < addrs.len() ==> !((#[trigger] addrs[i]).address is V4)),
{
    lemma_first_outside(addrs, 0);
    lemma_preferred(addrs, 0);
}

/// The refusal names the first address that is not loopback.
pub proof fn law_refusal_names_the_first_outside(addrs: Seq<BindAddress>, k: int)
    requires
        0 <= k < addrs.len(),
        !addrs[k].address.loopback(),
        forall|i: int| 0 <= i < k ==> (#[trigger] addrs[i]).address.loopback(),
    ensures
        localhost_choice(addrs) matches Err(refusal) && text::begins_with(
            refusal,
            "'localhost' resolves to "@ + addrs[k].shown@,
        ),
{
    lemma_first_outside(addrs, 0);
    let found = first_outside(addrs, 0)->0;
    if found < k {
        assert(addrs[found].address.loopback());
    }
    let refusal = localhost_choice(addrs)->Err_0;
    let head = "'localhost' resolves to "@ + addrs[k].shown@;
    assert(refusal.subrange(0, head.len() as int) =~= head);
}

/// Version four reaches this machine only behind 127, and version six only
/// as `::1`.
pub proof fn law_loopback_addresses(a: u8, b: u8, c: u8, d: u8)
    ensures
        IpAddress::V4(127, b, c, d).loopback(),
        a != 127 ==> !IpAddress::V4(a, b, c, d).loopback(),
        IpAddress::V6(0, 0, 0, 0, 0, 0, 0, 1).loopback(),
        forall|q: u16, r: u16, s: u16, t: u16, u: u16, v: u16, w: u16, x: u16|
            #[trigger] IpAddress::V6(q, r, s, t, u, v, w, x).loopback() ==> q + r + s + t + u + v + w
                == 0 && x == 1,
{
}

proof fn lemma_first_outside(addrs: Seq<BindAddress>, k: int)
    requires
        0 <= k <= addrs.len(),
    ensures
        first_outside(addrs, k) is None <==> forall|i: int|
            k <= i < addrs.len() ==> (#[trigger] addrs[i]).address.loopback(),
        first_outside(addrs, k) matches Some(p) ==> k <= p < addrs.len()
            && !addrs[p].address.loopback() && forall|i: int|
            k <= i < p ==> (#[trigger] addrs[i]).address.loopback(),
    decreases addrs.len() - k,
{
    if k < addrs.len() {
        lemma_first_outside(addrs, k + 1);
    }
}

proof fn lemma_preferred(addrs: Seq<BindAddress>, k: int)
    requires
        0 <= k <= addrs.len(),
    ensures
        ({
            let p = preferred_from(addrs, k);
            ||| k <= p < addrs.len() && addrs[p].address is V4 && forall|i: int|
                k <= i < p ==> !((#[trigger] addrs[i]).address is V4)
            ||| p == 0 && forall|i: int|
                k <= i < addrs.len() ==> !((#[trigger] addrs[i]).address is V4)
        }),
    decreases addrs.len() - k,
{
    if k < addrs.len() && !(addrs[k].address is V4) {
        lemma_preferred(addrs, k + 1);
    }
}

/// The refusal of an address names it.
pub proof fn law_refused_addresses_are_named(shown: Seq<char>)
    ensures
        text::occurs(refused_bind_text(shown), shown),
{
    text::law_occurrences_are_found_anywhere(
        "Refusing to bind "@,
        shown,
        ": nian-workspace only binds loopback addresses (127.0.0.1 / ::1). It has no authentication, and remote clients would gain full tool access to your filesystem. Use an external secure tunnel for remote access."@,
        Seq::empty(),
        0,
    );
}

} // verus!
