//! Host addresses of validators and bootstrap peers.
use vstd::prelude::*;
use vstd::string::{StrSliceExecFns, StringExecFns};
use crate::format::{decimal, push_char, push_decimal};
use crate::table::{
    has_key, key_index, keys_unique, lemma_table_empty, lemma_table_index, lemma_table_len,
    lemma_table_push, lemma_table_update, table_view,
};

verus! {

/// Port of the REST API when the genesis configuration names none.
pub const DEFAULT_REST_PORT: u16 = 3030;

/// Port of the peer-to-peer service when the genesis configuration names none.
pub const DEFAULT_P2P_PORT: u16 = 4001;

/// The characters of `s`.
pub(crate) fn chars_of(s: &str) -> (r: Vec<char>)
    ensures
        r@ == s@,
{
    let n = s.unicode_len();
    let mut r: Vec<char> = Vec::new();
    let mut i: usize = 0;
    while i < n
        invariant
            n == s@.len(),
            i <= n,
            r@ == s@.take(i as int),
        decreases n - i,
    {
        r.push(s.get_char(i));
        proof {
            assert(s@.take(i + 1) =~= s@.take(i as int).push(s@[i as int]));
        }
        i += 1;
    }
    proof {
        assert(s@.take(n as int) =~= s@);
    }
    r
}

/// Appends `v[from..to]` to `s`.
pub(crate) fn push_range(s: &mut String, v: &Vec<char>, from: usize, to: usize)
    requires
        from <= to <= v@.len(),
    ensures
        final(s)@ == old(s)@ + v@.subrange(from as int, to as int),
{
    let mut i = from;
    while i < to
        invariant
            from <= i <= to,
            to <= v@.len(),
            s@ == old(s)@ + v@.subrange(from as int, i as int),
        decreases to - i,
    {
        push_char(s, v[i]);
        proof {
            assert(v@.subrange(from as int, i + 1) =~= v@.subrange(from as int, i as int).push(
                v@[i as int],
            ));
        }
        i += 1;
    }
}

/// The part of `s` after its last colon (all of `s` when it has none).
pub open spec fn after_last_colon(s: Seq<char>) -> Seq<char>
    decreases s.len(),
{
    if s.len() == 0 {
        s
    } else if s.last() == ':' {
        Seq::empty()
    } else {
        after_last_colon(s.drop_last()).push(s.last())
    }
}

/// Every character of `s` is an ASCII digit.
pub open spec fn all_ascii_digits(s: Seq<char>) -> bool {
    forall|i: int| 0 <= i < s.len() ==> '0' <= #[trigger] s[i] <= '9'
}

/// `host` already ends with a port: a colon followed by a non-empty run of
/// digits to its end.
pub open spec fn has_port_suffix(host: Seq<char>) -> bool {
    &&& host.contains(':')
    &&& after_last_colon(host).len() > 0
    &&& all_ascii_digits(after_last_colon(host))
}

/// `host` with `:port` appended unless it already ends with a port.
pub open spec fn with_port(host: Seq<char>, port: u16) -> Seq<char> {
    if has_port_suffix(host) {
        host
    } else {
        host + seq![':'] + decimal(port as nat)
    }
}

/// `host` unchanged when it ends with a port, else with `:default_port`
/// appended ("abc.onion" and 3030 give "abc.onion:3030"; "1.2.3.4:7030"
/// stays as it is).
pub fn ensure_host_port(host: &str, default_port: u16) -> (r: String)
    ensures
        r@ == with_port(host@, default_port),
{
    let c = chars_of(host);
    let n = c.len();
    let mut i = n;
    let mut digits = true;
    proof {
        assert(c@.take(n as int) =~= c@);
        assert(c@.subrange(n as int, n as int) =~= Seq::<char>::empty());
        assert(after_last_colon(c@.take(n as int)) + c@.subrange(n as int, n as int) =~= after_last_colon(c@));
    }
    while i > 0 && c[i - 1] != ':'
        invariant
            n == c@.len(),
            c@ == host@,
            i <= n,
            forall|k: int| i <= k < n ==> c@[k] != ':',
            after_last_colon(c@) == after_last_colon(c@.take(i as int)) + c@.subrange(
                i as int,
                n as int,
            ),
            digits == all_ascii_digits(c@.subrange(i as int, n as int)),
        decreases i,
    {
        let ch = c[i - 1];
        proof {
            let t = c@.take(i as int);
            assert(t.drop_last() =~= c@.take(i - 1));
            assert(t.last() == ch);
            assert(c@.subrange(i - 1, n as int) =~= seq![ch] + c@.subrange(i as int, n as int));
            assert(after_last_colon(c@.take(i - 1)) + c@.subrange(i - 1, n as int) =~= after_last_colon(
                c@.take(i - 1),
            ).push(ch) + c@.subrange(i as int, n as int));
        }
        proof {
            let t = c@.subrange(i - 1, n as int);
            let u = c@.subrange(i as int, n as int);
            assert(t[0] == ch);
            assert forall|k: int| 1 <= k < t.len() implies t[k] == u[k - 1] by {}
            if all_ascii_digits(t) {
                assert forall|k: int| 0 <= k < u.len() implies '0' <= #[trigger] u[k] <= '9' by {
                    assert(t[k + 1] == u[k]);
                }
            }
            if ('0' <= ch && ch <= '9') && all_ascii_digits(u) {
                assert forall|k: int| 0 <= k < t.len() implies '0' <= #[trigger] t[k] <= '9' by {
                    if k > 0 {
                        assert(t[k] == u[k - 1]);
                    }
                }
            }
        }
        if !('0' <= ch && ch <= '9') {
            digits = false;
        }
        i -= 1;
    }
    proof {
        if i > 0 {
            let t = c@.take(i as int);
            assert(t.last() == ':');
            assert(after_last_colon(t) == Seq::<char>::empty());
        } else {
            assert(c@.take(0) =~= Seq::<char>::empty());
        }
        assert(after_last_colon(c@) =~= c@.subrange(i as int, n as int));
        if i > 0 {
            assert(c@[i - 1] == ':');
        } else {
            assert(!c@.contains(':'));
        }
    }
    if i > 0 && i < n && digits {
        return host.to_owned();
    }
    let mut s = String::from_str(host);
    push_char(&mut s, ':');
    push_decimal(&mut s, default_port as u128);
    s
}

/// The part after the last colon of `x + d` is that of `x` followed by `d`,
/// when `d` holds no colon.
proof fn lemma_after_last_colon_append(x: Seq<char>, d: Seq<char>)
    requires
        !d.contains(':'),
    ensures
        after_last_colon(x + d) == after_last_colon(x) + d,
    decreases d.len(),
{
    if d.len() == 0 {
        assert(x + d =~= x);
        assert(after_last_colon(x) + d =~= after_last_colon(x));
    } else {
        let p = d.drop_last();
        assert(!p.contains(':')) by {
            if p.contains(':') {
                let k = choose|k: int| 0 <= k < p.len() && p[k] == ':';
                assert(d[k] == ':');
            }
        }
        lemma_after_last_colon_append(x, p);
        assert((x + d).drop_last() =~= x + p);
        assert((x + d).last() == d.last());
        assert(d.last() != ':') by {
            if d.last() == ':' {
                assert(d[d.len() - 1] == ':');
            }
        }
        assert(after_last_colon(x) + p.push(d.last()) =~= after_last_colon(x) + d);
        assert(p.push(d.last()) =~= d);
        assert((after_last_colon(x) + p).push(d.last()) =~= after_last_colon(x) + d);
    }
}

/// The decimal digits of a number are ASCII digits.
proof fn lemma_decimal_digits(n: nat)
    ensures
        decimal(n).len() > 0,
        all_ascii_digits(decimal(n)),
        !decimal(n).contains(':'),
    decreases n,
{
    if n >= 10 {
        lemma_decimal_digits(n / 10);
    }
    let d = decimal(n);
    assert forall|i: int| 0 <= i < d.len() implies '0' <= #[trigger] d[i] <= '9' by {
        if n >= 10 && i < d.len() - 1 {
            assert(d[i] == decimal(n / 10)[i]);
        }
    }
    if d.contains(':') {
        let k = choose|k: int| 0 <= k < d.len() && d[k] == ':';
        assert('0' <= d[k] <= '9');
    }
}

/// `ensure_host_port` gives the host itself or the host with `:port`
/// appended, and a second call, with any default port, changes nothing.
pub proof fn lemma_ensure_host_port_idempotent(host: Seq<char>, port: u16, other: u16)
    ensures
        with_port(host, port) == host || with_port(host, port) == host + seq![':'] + decimal(
            port as nat,
        ),
        with_port(with_port(host, port), other) == with_port(host, port),
{
    if !has_port_suffix(host) {
        let x = host + seq![':'];
        let d = decimal(port as nat);
        lemma_decimal_digits(port as nat);
        lemma_after_last_colon_append(x, d);
        assert(x.last() == ':');
        assert(after_last_colon(x) == Seq::<char>::empty());
        assert(after_last_colon(x) + d =~= d);
        assert((x + d)[host.len() as int] == ':');
        assert((x + d).contains(':'));
        assert(has_port_suffix(x + d));
    }
}

/// Known validator endpoints: validator address to host. One host belongs to
/// at most one current address.
pub struct ValidatorEndpoints {
    entries: Vec<(String, String)>,
}

pub open spec fn endpoint_key() -> spec_fn((String, String)) -> Seq<char> {
    |e: (String, String)| e.0@
}

pub open spec fn endpoint_val() -> spec_fn((String, String)) -> Seq<char> {
    |e: (String, String)| e.1@
}

/// The map after registering `host` for `address`: entries of other
/// addresses on the same host are dropped as stale.
pub open spec fn after_endpoint_insert(
    m: Map<Seq<char>, Seq<char>>,
    address: Seq<char>,
    host: Seq<char>,
) -> Map<Seq<char>, Seq<char>> {
    m.restrict(Set::new(|a: Seq<char>| m.contains_key(a) && !(m[a] == host && a != address))).insert(
        address,
        host,
    )
}

/// No host is registered for two addresses.
pub open spec fn hosts_distinct(m: Map<Seq<char>, Seq<char>>) -> bool {
    forall|a: Seq<char>, b: Seq<char>|
        #[trigger] m.contains_key(a) && #[trigger] m.contains_key(b) && a != b ==> m[a] != m[b]
}

impl View for ValidatorEndpoints {
    type V = Map<Seq<char>, Seq<char>>;

    closed spec fn view(&self) -> Map<Seq<char>, Seq<char>> {
        table_view(self.entries@, endpoint_key(), endpoint_val())
    }
}

impl ValidatorEndpoints {
    pub closed spec fn wf(&self) -> bool {
        keys_unique(self.entries@, endpoint_key())
    }

    /// No endpoint known.
    pub fn new() -> (r: Self)
        ensures
            r.wf(),
            r@ == Map::<Seq<char>, Seq<char>>::empty(),
    {
        let r = ValidatorEndpoints { entries: Vec::new() };
        proof {
            lemma_table_empty(r.entries@, endpoint_key(), endpoint_val());
        }
        r
    }

    /// Number of known endpoints.
    pub fn len(&self) -> (n: usize)
        requires
            self.wf(),
        ensures
            n == self@.dom().len(),
    {
        proof {
            lemma_table_len(self.entries@, endpoint_key(), endpoint_val());
        }
        self.entries.len()
    }

    fn find(&self, key: &String) -> (r: Option<usize>)
        requires
            self.wf(),
        ensures
            match r {
                Some(i) => i < self.entries@.len() && self.entries@[i as int].0@ == key@,
                None => !self@.contains_key(key@),
            },
    {
        let n = self.entries.len();
        let mut i: usize = 0;
        while i < n
            invariant
                n == self.entries@.len(),
                i <= n,
                forall|j: int| 0 <= j < i ==> (#[trigger] self.entries@[j]).0@ != key@,
            decreases n - i,
        {
            if self.entries[i].0 == *key {
                return Some(i);
            }
            i += 1;
        }
        proof {
            if self@.contains_key(key@) {
                let j = key_index(self.entries@, endpoint_key(), key@);
                assert(self.entries@[j].0@ == key@);
            }
        }
        None
    }

    /// The host of `address`.
    pub fn get(&self, address: &str) -> (r: Option<String>)
        requires
            self.wf(),
        ensures
            match r {
                Some(h) => self@.contains_key(address@) && h@ == self@[address@],
                None => !self@.contains_key(address@),
            },
    {
        let key = address.to_owned();
        match self.find(&key) {
            Some(i) => {
                proof {
                    lemma_table_index(self.entries@, endpoint_key(), endpoint_val(), i as int);
                }
                Some(self.entries[i].1.clone())
            },
            None => None,
        }
    }

    /// The known endpoints as (address, host) pairs.
    pub fn pairs(&self) -> (r: Vec<(String, String)>)
        requires
            self.wf(),
        ensures
            r@.len() == self@.dom().len(),
            forall|i: int|
                0 <= i < r@.len() ==> self@.contains_key((#[trigger] r@[i]).0@) && self@[r@[i].0@]
                    == r@[i].1@,
    {
        proof {
            lemma_table_len(self.entries@, endpoint_key(), endpoint_val());
        }
        let n = self.entries.len();
        let mut r: Vec<(String, String)> = Vec::new();
        let mut i: usize = 0;
        while i < n
            invariant
                self.wf(),
                n == self.entries@.len(),
                i <= n,
                r@.len() == i,
                forall|k: int|
                    0 <= k < i ==> (#[trigger] r@[k]).0@ == self.entries@[k].0@ && r@[k].1@
                        == self.entries@[k].1@,
            decreases n - i,
        {
            let a = self.entries[i].0.clone();
            let h = self.entries[i].1.clone();
            r.push((a, h));
            i += 1;
        }
        proof {
            assert forall|k: int| 0 <= k < r@.len() implies self@.contains_key(
                (#[trigger] r@[k]).0@,
            ) && self@[r@[k].0@] == r@[k].1@ by {
                lemma_table_index(self.entries@, endpoint_key(), endpoint_val(), k);
            }
        }
        r
    }
}

/// Registers `host` for `address`, replacing the stale entry of any other
/// address announced from the same host (a validator that restarted with a
/// new key).
pub fn insert_validator_endpoint(ve: &mut ValidatorEndpoints, address: String, host: String)
    requires
        old(ve).wf(),
    ensures
        final(ve).wf(),
        final(ve)@ == after_endpoint_insert(old(ve)@, address@, host@),
{
    let ghost old_s = ve.entries@;
    let ghost old_m = ve@;
    let mut kept: Vec<(String, String)> = Vec::new();
    let n = ve.entries.len();
    let mut i: usize = 0;
    proof {
        lemma_table_empty(kept@, endpoint_key(), endpoint_val());
    }
    while i < n
        invariant
            n == ve.entries@.len(),
            ve.entries@ == old_s,
            keys_unique(old_s, endpoint_key()),
            old_m == table_view(old_s, endpoint_key(), endpoint_val()),
            i <= n,
            keys_unique(kept@, endpoint_key()),
            forall|a: int|
                0 <= a < kept@.len() ==> exists|j: int|
                    0 <= j < i && (#[trigger] kept@[a]).0@ == old_s[j].0@ && kept@[a].1@
                        == old_s[j].1@,
            forall|k: Seq<char>|
                #[trigger] table_view(kept@, endpoint_key(), endpoint_val()).contains_key(k) <==> (
                exists|j: int|
                    0 <= j < i && old_s[j].0@ == k && !(old_s[j].1@ == host@ && k != address@)),
            forall|k: Seq<char>| #[trigger]
                table_view(kept@, endpoint_key(), endpoint_val()).contains_key(k) ==> table_view(
                    kept@,
                    endpoint_key(),
                    endpoint_val(),
                )[k] == old_m[k],
        decreases n - i,
    {
        proof {
            lemma_table_index(old_s, endpoint_key(), endpoint_val(), i as int);
        }
        let drop = ve.entries[i].1 == host && !(ve.entries[i].0 == address);
        if !drop {
            let a = ve.entries[i].0.clone();
            let h = ve.entries[i].1.clone();
            let ghost before = kept@;
            let ghost e = (a, h);
            proof {
                if has_key(before, endpoint_key(), a@) {
                    let x = key_index(before, endpoint_key(), a@);
                    let j = choose|j: int|
                        0 <= j < i && before[x].0@ == old_s[j].0@ && before[x].1@ == old_s[j].1@;
                    assert(old_s[j].0@ == old_s[i as int].0@);
                }
                lemma_table_push(before, endpoint_key(), endpoint_val(), e);
            }
            kept.push((a, h));
            proof {
                assert forall|x: int| 0 <= x < kept@.len() implies exists|j: int|
                    0 <= j < i + 1 && (#[trigger] kept@[x]).0@ == old_s[j].0@ && kept@[x].1@
                        == old_s[j].1@ by {
                    if x == before.len() {
                        assert(kept@[x].0@ == old_s[i as int].0@);
                    } else {
                        assert(kept@[x] == before[x]);
                    }
                }
                assert forall|k: Seq<char>|
                    #[trigger] table_view(kept@, endpoint_key(), endpoint_val()).contains_key(k)
                        <==> (exists|j: int|
                        0 <= j < i + 1 && old_s[j].0@ == k && !(old_s[j].1@ == host@ && k
                            != address@)) by {
                    if k == a@ {
                        assert(old_s[i as int].0@ == k);
                    } else if exists|j: int|
                        0 <= j < i + 1 && old_s[j].0@ == k && !(old_s[j].1@ == host@ && k
                            != address@) {
                        let j = choose|j: int|
                            0 <= j < i + 1 && old_s[j].0@ == k && !(old_s[j].1@ == host@ && k
                                != address@);
                        assert(j < i);
                    }
                }
            }
        } else {
            proof {
                assert forall|k: Seq<char>|
                    #[trigger] table_view(kept@, endpoint_key(), endpoint_val()).contains_key(k)
                        <==> (exists|j: int|
                        0 <= j < i + 1 && old_s[j].0@ == k && !(old_s[j].1@ == host@ && k
                            != address@)) by {
                    if exists|j: int|
                        0 <= j < i + 1 && old_s[j].0@ == k && !(old_s[j].1@ == host@ && k
                            != address@) {
                        let j = choose|j: int|
                            0 <= j < i + 1 && old_s[j].0@ == k && !(old_s[j].1@ == host@ && k
                                != address@);
                        assert(j < i);
                    }
                }
            }
        }
        i += 1;
    }
    let ghost kept_m = table_view(kept@, endpoint_key(), endpoint_val());
    let ghost mid = old_m.restrict(
        Set::new(|a: Seq<char>| old_m.contains_key(a) && !(old_m[a] == host@ && a != address@)),
    );
    proof {
        assert forall|k: Seq<char>| kept_m.contains_key(k) <==> mid.contains_key(k) by {
            if old_m.contains_key(k) {
                let j = key_index(old_s, endpoint_key(), k);
                lemma_table_index(old_s, endpoint_key(), endpoint_val(), j);
            }
            if kept_m.contains_key(k) {
                let j = choose|j: int|
                    0 <= j < n && old_s[j].0@ == k && !(old_s[j].1@ == host@ && k != address@);
                lemma_table_index(old_s, endpoint_key(), endpoint_val(), j);
            }
        }
        assert(kept_m =~= mid);
    }
    ve.entries = kept;
    let slot = ve.find(&address);
    let ghost s2 = ve.entries@;
    let ghost e = (address, host);
    match slot {
        Some(x) => {
            proof {
                lemma_table_update(s2, endpoint_key(), endpoint_val(), x as int, e);
            }
            ve.entries.set(x, (address, host));
        },
        None => {
            proof {
                if has_key(s2, endpoint_key(), address@) {
                    let j = key_index(s2, endpoint_key(), address@);
                    assert(s2[j].0@ == address@);
                }
                lemma_table_push(s2, endpoint_key(), endpoint_val(), e);
            }
            ve.entries.push((address, host));
        },
    }
    proof {
        assert(ve@ =~= after_endpoint_insert(old_m, e.0@, e.1@));
    }
}

/// Registering an endpoint keeps hosts distinct across addresses, and the
/// newly registered address is then the only one on its host.
pub proof fn lemma_endpoint_insert_distinct(
    m: Map<Seq<char>, Seq<char>>,
    address: Seq<char>,
    host: Seq<char>,
)
    requires
        hosts_distinct(m),
    ensures
        hosts_distinct(after_endpoint_insert(m, address, host)),
        after_endpoint_insert(m, address, host)[address] == host,
        forall|a: Seq<char>|
            #[trigger] after_endpoint_insert(m, address, host).contains_key(a) && a != address
                ==> after_endpoint_insert(m, address, host)[a] != host,
{
    let r = after_endpoint_insert(m, address, host);
    assert forall|a: Seq<char>, b: Seq<char>|
        #[trigger] r.contains_key(a) && #[trigger] r.contains_key(b) && a != b implies r[a]
        != r[b] by {
        if a != address && b != address {
            assert(m.contains_key(a) && m.contains_key(b));
        }
    }
}

/// One entry of the genesis configuration's validator list, as far as its
/// network location goes.
#[derive(Clone, Debug)]
pub struct GenesisWallet {
    pub host_address: Option<String>,
    pub onion_address: Option<String>,
    pub rest_port: Option<u16>,
    pub p2p_port: Option<u16>,
}

/// The host a genesis entry names: its host address when present and not
/// empty, else its onion address when present and not empty.
pub open spec fn genesis_host(w: GenesisWallet) -> Option<Seq<char>> {
    match w.host_address {
        Some(h) if h@.len() > 0 => Some(h@),
        _ => match w.onion_address {
            Some(o) if o@.len() > 0 => Some(o@),
            _ => None,
        },
    }
}

/// The REST endpoint of a genesis entry: its host with its REST port (3030
/// by default) appended unless the host already ends with a port.
pub open spec fn genesis_rest_host(w: GenesisWallet) -> Option<Seq<char>> {
    match genesis_host(w) {
        Some(h) => Some(
            with_port(
                h,
                match w.rest_port {
                    Some(p) => p,
                    None => DEFAULT_REST_PORT,
                },
            ),
        ),
        None => None,
    }
}

/// The host a genesis entry names (see `genesis_host`).
fn genesis_host_of(wallet: &GenesisWallet) -> (r: Option<String>)
    ensures
        opt_view(r) == genesis_host(*wallet),
{
    match &wallet.host_address {
        Some(h) if !h.as_str().is_empty() => Some(h.clone()),
        _ => match &wallet.onion_address {
            Some(o) if !o.as_str().is_empty() => Some(o.clone()),
            _ => None,
        },
    }
}

/// The REST endpoint of a genesis entry (see `genesis_rest_host`).
pub fn resolve_genesis_host(wallet: &GenesisWallet) -> (r: Option<String>)
    ensures
        match r {
            Some(s) => genesis_rest_host(*wallet) == Some(s@),
            None => genesis_rest_host(*wallet) is None,
        },
{
    let host: Option<&String> = match &wallet.host_address {
        Some(h) if !h.as_str().is_empty() => Some(h),
        _ => match &wallet.onion_address {
            Some(o) if !o.as_str().is_empty() => Some(o),
            _ => None,
        },
    };
    match host {
        Some(h) => {
            let port = match wallet.rest_port {
                Some(p) => p,
                None => DEFAULT_REST_PORT,
            };
            Some(ensure_host_port(h.as_str(), port))
        },
        None => None,
    }
}

/// `c` is white space in the sense of Unicode's `White_Space` property (what
/// `char::is_whitespace` and `str::trim` go by).
pub open spec fn is_white_space(c: char) -> bool {
    ||| '\t' <= c <= '\r'
    ||| c == ' '
    ||| c == '\u{85}'
    ||| c == '\u{A0}'
    ||| c == '\u{1680}'
    ||| '\u{2000}' <= c <= '\u{200A}'
    ||| c == '\u{2028}'
    ||| c == '\u{2029}'
    ||| c == '\u{202F}'
    ||| c == '\u{205F}'
    ||| c == '\u{3000}'
}

/// `s` without its leading white space.
pub open spec fn trim_start(s: Seq<char>) -> Seq<char>
    decreases s.len(),
{
    if s.len() > 0 && is_white_space(s[0]) {
        trim_start(s.drop_first())
    } else {
        s
    }
}

/// `s` without its trailing white space.
pub open spec fn trim_end(s: Seq<char>) -> Seq<char>
    decreases s.len(),
{
    if s.len() > 0 && is_white_space(s.last()) {
        trim_end(s.drop_last())
    } else {
        s
    }
}

/// `s` without leading and trailing white space (as `str::trim` gives it).
pub open spec fn trimmed(s: Seq<char>) -> Seq<char> {
    trim_end(trim_start(s))
}

/// Whether `c` is white space (see `is_white_space`).
fn white_space(c: char) -> (r: bool)
    ensures
        r == is_white_space(c),
{
    ('\t' <= c && c <= '\r') || c == ' ' || c == '\u{85}' || c == '\u{A0}' || c == '\u{1680}'
        || ('\u{2000}' <= c && c <= '\u{200A}') || c == '\u{2028}' || c == '\u{2029}'
        || c == '\u{202F}' || c == '\u{205F}' || c == '\u{3000}'
}

/// `s` without leading and trailing white space (see `trimmed`).
pub(crate) fn trim_chars(s: &Vec<char>) -> (r: Vec<char>)
    ensures
        r@ == trimmed(s@),
{
    let n = s.len();
    let mut a: usize = 0;
    proof {
        assert(s@.skip(0) =~= s@);
    }
    while a < n && white_space(s[a])
        invariant
            n == s@.len(),
            a <= n,
            trim_start(s@) == trim_start(s@.skip(a as int)),
        decreases n - a,
    {
        proof {
            assert(s@.skip(a as int).drop_first() =~= s@.skip(a + 1));
        }
        a += 1;
    }
    let ghost t = s@.skip(a as int);
    proof {
        assert(trim_start(s@) == t);
    }
    let mut b: usize = n;
    while b > a && white_space(s[b - 1])
        invariant
            n == s@.len(),
            a <= b <= n,
            t == s@.skip(a as int),
            trim_end(t) == trim_end(s@.subrange(a as int, b as int)),
        decreases b - a,
    {
        proof {
            assert(s@.subrange(a as int, b as int).drop_last() =~= s@.subrange(a as int, b - 1));
        }
        b -= 1;
    }
    let mut r: Vec<char> = Vec::new();
    let mut k: usize = a;
    while k < b
        invariant
            a <= k <= b <= n,
            n == s@.len(),
            r@ == s@.subrange(a as int, k as int),
        decreases b - k,
    {
        r.push(s[k]);
        proof {
            assert(s@.subrange(a as int, k + 1) =~= s@.subrange(a as int, k as int).push(s@[k as int]));
        }
        k += 1;
    }
    proof {
        assert(t =~= s@.subrange(a as int, n as int));
        assert(trim_end(s@.subrange(a as int, b as int)) == s@.subrange(a as int, b as int));
    }
    r
}

/// The pieces of `s` between occurrences of `sep`, as `str::split` yields
/// them (empty pieces included; one empty piece for an empty `s`).
pub open spec fn split_on(s: Seq<char>, sep: char) -> Seq<Seq<char>>
    decreases s.len(),
{
    if s.len() == 0 {
        seq![Seq::<char>::empty()]
    } else {
        let r = split_on(s.drop_last(), sep);
        if s.last() == sep {
            r.push(Seq::<char>::empty())
        } else {
            r.update(r.len() - 1, r.last().push(s.last()))
        }
    }
}

/// The characters ".onion".
pub open spec fn onion_marker() -> Seq<char> {
    seq!['.', 'o', 'n', 'i', 'o', 'n']
}

/// `s` contains `t` as a contiguous part.
pub open spec fn contains_part(s: Seq<char>, t: Seq<char>) -> bool {
    exists|i: int| 0 <= i && i + t.len() <= s.len() && #[trigger] s.subrange(i, i + t.len()) == t
}

/// `s` starts with a slash.
pub open spec fn starts_with_slash(s: Seq<char>) -> bool {
    s.len() > 0 && s[0] == '/'
}

/// Index of the first colon of `s`, if any.
pub open spec fn first_colon(s: Seq<char>) -> Option<int> {
    if exists|i: int| 0 <= i < s.len() && s[i] == ':' {
        Some(choose|i: int| 0 <= i < s.len() && s[i] == ':' && forall|j: int| 0 <= j < i ==> s[j] != ':')
    } else {
        None
    }
}

/// A configured bootstrap entry in dialable form: "host:port" becomes
/// "/ip4/host/tcp/port"; multiaddrs (starting with a slash), onion addresses
/// and entries without a colon stay as they are.
pub open spec fn multiaddr_of(t: Seq<char>) -> Seq<char> {
    if !starts_with_slash(t) && !contains_part(t, onion_marker()) {
        match first_colon(t) {
            Some(i) => "/ip4/"@ + t.take(i) + "/tcp/"@ + t.skip(i + 1),
            None => t,
        }
    } else {
        t
    }
}

/// The dialable addresses of a comma-separated list of bootstrap entries:
/// each entry trimmed and converted, empty results dropped.
pub open spec fn bootstrap_list(pieces: Seq<Seq<char>>) -> Seq<Seq<char>>
    decreases pieces.len(),
{
    if pieces.len() == 0 {
        Seq::empty()
    } else {
        let r = bootstrap_list(pieces.drop_last());
        let c = multiaddr_of(trimmed(pieces.last()));
        if c.len() > 0 {
            r.push(c)
        } else {
            r
        }
    }
}

/// The pieces of `c` between occurrences of `sep`.
pub(crate) fn split_chars(c: &Vec<char>, sep: char) -> (r: Vec<Vec<char>>)
    ensures
        r@.len() > 0,
        r@.map_values(|p: Vec<char>| p@) == split_on(c@, sep),
{
    let mut done: Vec<Vec<char>> = Vec::new();
    let mut cur: Vec<char> = Vec::new();
    let n = c.len();
    let mut i: usize = 0;
    proof {
        assert(c@.take(0) =~= Seq::<char>::empty());
        assert(done@.map_values(|p: Vec<char>| p@).push(cur@) =~= split_on(c@.take(0), sep));
    }
    while i < n
        invariant
            n == c@.len(),
            i <= n,
            done@.map_values(|p: Vec<char>| p@).push(cur@) == split_on(c@.take(i as int), sep),
        decreases n - i,
    {
        let ch = c[i];
        let ghost before = done@.map_values(|p: Vec<char>| p@).push(cur@);
        proof {
            assert(c@.take(i + 1).drop_last() =~= c@.take(i as int));
            assert(c@.take(i + 1).last() == ch);
        }
        if ch == sep {
            let piece = cur;
            done.push(piece);
            cur = Vec::new();
            proof {
                assert(done@.map_values(|p: Vec<char>| p@).push(cur@) =~= before.push(
                    Seq::<char>::empty(),
                ));
            }
        } else {
            cur.push(ch);
            proof {
                assert(done@.map_values(|p: Vec<char>| p@).push(cur@) =~= before.update(
                    before.len() - 1,
                    before.last().push(ch),
                ));
            }
        }
        i += 1;
    }
    proof {
        assert(c@.take(n as int) =~= c@);
    }
    let ghost before = done@.map_values(|p: Vec<char>| p@).push(cur@);
    done.push(cur);
    proof {
        assert(done@.map_values(|p: Vec<char>| p@) =~= before);
    }
    done
}

/// Whether `c` contains ".onion".
fn has_onion(c: &Vec<char>) -> (r: bool)
    ensures
        r == contains_part(c@, onion_marker()),
{
    let n = c.len();
    if n < 6 {
        proof {
            if contains_part(c@, onion_marker()) {
                let i = choose|i: int|
                    0 <= i && i + 6 <= c@.len() && #[trigger] c@.subrange(i, i + 6)
                        == onion_marker();
            }
        }
        return false;
    }
    let mut i: usize = 0;
    while i <= n - 6
        invariant
            n == c@.len(),
            n >= 6,
            i <= n - 5,
            forall|k: int| 0 <= k < i ==> #[trigger] c@.subrange(k, k + 6) != onion_marker(),
        decreases n - i,
    {
        if c[i] == '.' && c[i + 1] == 'o' && c[i + 2] == 'n' && c[i + 3] == 'i' && c[i + 4] == 'o'
            && c[i + 5] == 'n' {
            proof {
                assert(c@.subrange(i as int, i + 6) =~= onion_marker());
            }
            return true;
        }
        proof {
            let t = c@.subrange(i as int, i + 6);
            if t == onion_marker() {
                assert(t[0] == c@[i as int] && t[1] == c@[i + 1] && t[2] == c@[i + 2]);
                assert(t[3] == c@[i + 3] && t[4] == c@[i + 4] && t[5] == c@[i + 5]);
            }
        }
        i += 1;
    }
    proof {
        if contains_part(c@, onion_marker()) {
            let k = choose|k: int|
                0 <= k && k + 6 <= c@.len() && #[trigger] c@.subrange(k, k + 6) == onion_marker();
            assert(k < i);
        }
    }
    false
}

/// Index of the first colon of `c`, if any.
pub(crate) fn find_first_colon(c: &Vec<char>) -> (r: Option<usize>)
    ensures
        match r {
            Some(i) => i < c@.len() && first_colon(c@) == Some(i as int),
            None => first_colon(c@) is None,
        },
{
    let n = c.len();
    let mut i: usize = 0;
    while i < n
        invariant
            n == c@.len(),
            i <= n,
            forall|j: int| 0 <= j < i ==> c@[j] != ':',
        decreases n - i,
    {
        if c[i] == ':' {
            proof {
                let k = choose|k: int|
                    0 <= k < c@.len() && c@[k] == ':' && forall|j: int| 0 <= j < k ==> c@[j] != ':';
                assert(k == i) by {
                    if k < i {
                    } else if k > i {
                        assert(c@[i as int] == ':');
                    }
                }
            }
            return Some(i);
        }
        i += 1;
    }
    None
}

/// The dialable form of one bootstrap entry (see `multiaddr_of`).
fn to_multiaddr(t: &Vec<char>) -> (r: String)
    ensures
        r@ == multiaddr_of(t@),
{
    let slash = t.len() > 0 && t[0] == '/';
    let mut s = String::new();
    if !slash && !has_onion(t) {
        match find_first_colon(t) {
            Some(i) => {
                s.append("/ip4/");
                push_range(&mut s, t, 0, i);
                s.append("/tcp/");
                push_range(&mut s, t, i + 1, t.len());
                proof {
                    assert(t@.subrange(0, i as int) =~= t@.take(i as int));
                    assert(t@.subrange(i + 1, t@.len() as int) =~= t@.skip(i + 1));
                }
                return s;
            },
            None => {},
        }
    }
    push_range(&mut s, t, 0, t.len());
    proof {
        assert(t@.subrange(0, t@.len() as int) =~= t@);
    }
    s
}

/// The dialable peer addresses of a comma-separated bootstrap list (the
/// operator's override of the genesis peers): each entry is trimmed, a
/// "host:port" entry becomes "/ip4/host/tcp/port", and empty entries are
/// dropped.
pub fn parse_bootstrap_list(val: &str) -> (r: Vec<String>)
    ensures
        r@.map_values(|s: String| s@) == bootstrap_list(split_on(val@, ',')),
{
    let c = chars_of(val);
    let pieces = split_chars(&c, ',');
    let ghost ps = pieces@.map_values(|p: Vec<char>| p@);
    let mut out: Vec<String> = Vec::new();
    let n = pieces.len();
    let mut i: usize = 0;
    while i < n
        invariant
            n == pieces@.len(),
            ps == pieces@.map_values(|p: Vec<char>| p@),
            i <= n,
            out@.map_values(|s: String| s@) == bootstrap_list(ps.take(i as int)),
        decreases n - i,
    {
        let ghost piece = pieces@[i as int]@;
        proof {
            assert(ps.take(i + 1).drop_last() =~= ps.take(i as int));
            assert(ps.take(i + 1).last() == piece);
        }
        let t = trim_chars(&pieces[i]);
        let conv = to_multiaddr(&t);
        if !conv.as_str().is_empty() {
            let ghost before = out@.map_values(|s: String| s@);
            out.push(conv);
            proof {
                assert(out@.map_values(|s: String| s@) =~= before.push(multiaddr_of(trimmed(piece))));
            }
        }
        i += 1;
    }
    proof {
        assert(ps.take(n as int) =~= ps);
    }
    out
}

/// The dialable address of a genesis bootstrap entry, unless it is this
/// node itself (`our_host` equal to the entry's REST endpoint): its host (see
/// `genesis_host`) with its peer-to-peer port (4001 by default), as
/// "host:port" for an onion host, as it is for a multiaddr, and as
/// "/ip4/host/tcp/port" otherwise.
pub open spec fn genesis_peer(w: GenesisWallet, our_host: Option<Seq<char>>) -> Option<Seq<char>> {
    match (genesis_rest_host(w), genesis_host(w)) {
        (Some(rest), Some(h)) => if our_host == Some(rest) {
            None
        } else {
            let port = match w.p2p_port {
                Some(p) => p,
                None => DEFAULT_P2P_PORT,
            };
            if contains_part(h, onion_marker()) {
                Some(h + seq![':'] + decimal(port as nat))
            } else if starts_with_slash(h) {
                Some(h)
            } else {
                Some("/ip4/"@ + h + "/tcp/"@ + decimal(port as nat))
            }
        },
        _ => None,
    }
}

/// The dialable addresses of the genesis bootstrap entries, in their order.
pub open spec fn genesis_peers(nodes: Seq<GenesisWallet>, our_host: Option<Seq<char>>) -> Seq<
    Seq<char>,
>
    decreases nodes.len(),
{
    if nodes.len() == 0 {
        Seq::empty()
    } else {
        let r = genesis_peers(nodes.drop_last(), our_host);
        match genesis_peer(nodes.last(), our_host) {
            Some(a) => r.push(a),
            None => r,
        }
    }
}

/// The view of an optional string.
pub open spec fn opt_view(o: Option<String>) -> Option<Seq<char>> {
    match o {
        Some(s) => Some(s@),
        None => None,
    }
}

/// The dialable address of one genesis bootstrap entry (see `genesis_peer`).
fn genesis_peer_address(w: &GenesisWallet, our_host: &Option<String>) -> (r: Option<String>)
    ensures
        opt_view(r) == genesis_peer(*w, opt_view(*our_host)),
{
    let rest = match resolve_genesis_host(w) {
        Some(h) => h,
        None => return None,
    };
    match our_host {
        Some(ours) => {
            if rest == *ours {
                return None;
            }
        },
        None => {},
    }
    let host = match genesis_host_of(w) {
        Some(h) => h,
        None => return None,
    };
    let port = match w.p2p_port {
        Some(p) => p,
        None => DEFAULT_P2P_PORT,
    };
    let c = chars_of(host.as_str());
    if has_onion(&c) {
        let mut s = host;
        push_char(&mut s, ':');
        push_decimal(&mut s, port as u128);
        Some(s)
    } else if c.len() > 0 && c[0] == '/' {
        Some(host)
    } else {
        let mut s = String::from_str("/ip4/");
        s.append(host.as_str());
        s.append("/tcp/");
        push_decimal(&mut s, port as u128);
        Some(s)
    }
}

/// The dialable addresses of the genesis bootstrap entries other than this
/// node (see `genesis_peer`).
pub fn bootstrap_from_genesis(nodes: &Vec<GenesisWallet>, our_host: &Option<String>) -> (r: Vec<
    String,
>)
    ensures
        r@.map_values(|s: String| s@) == genesis_peers(nodes@, opt_view(*our_host)),
{
    let mut out: Vec<String> = Vec::new();
    let n = nodes.len();
    let mut i: usize = 0;
    while i < n
        invariant
            n == nodes@.len(),
            i <= n,
            out@.map_values(|s: String| s@) == genesis_peers(nodes@.take(i as int), opt_view(*our_host)),
        decreases n - i,
    {
        proof {
            assert(nodes@.take(i + 1).drop_last() =~= nodes@.take(i as int));
            assert(nodes@.take(i + 1).last() == nodes@[i as int]);
        }
        match genesis_peer_address(&nodes[i], our_host) {
            Some(a) => {
                let ghost before = out@.map_values(|s: String| s@);
                let ghost av = a@;
                out.push(a);
                proof {
                    assert(out@.map_values(|s: String| s@) =~= before.push(av));
                }
            },
            None => {},
        }
        i += 1;
    }
    proof {
        assert(nodes@.take(n as int) =~= nodes@);
    }
    out
}

} // verus!
