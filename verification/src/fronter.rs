//! The relay client: which deployed script each request goes to, and the HTTP requests it sends.
use crate::text::{decimal, push_decimal, push_str};
use vstd::prelude::*;

verus! {

/// The host every relay request names.
pub const HTTP_HOST: &'static str = "script.google.com";

/// The address the TLS connections of the relay go to.
pub const CONNECT_HOST: &'static str = "216.239.38.120";

/// The name the TLS connections of the relay present.
pub const SNI_HOST: &'static str = "www.google.com";

/// The most connections the pool keeps.
pub const POOL_MAX: usize = 50;

/// How many connections the pool opens each time it tops itself up.
pub const POOL_MIN_IDLE: usize = 15;

/// How many seconds a pooled connection may be used.
pub const CONN_TTL: u64 = 45;

/// How many connections the pool opens when it starts.
pub const POOL_WARM: usize = 30;

/// How many connections the pool opens after it had none to hand out.
pub const POOL_REFILL: usize = 8;

/// How many times a relay request is tried.
pub const RELAY_ATTEMPTS: usize = 3;

/// How many redirects a relay request follows.
pub const MAX_REDIRECTS: usize = 5;

/// Whether a relay request that has been tried `tried` times is tried again.
pub fn attempt_again(tried: usize) -> (r: bool)
    ensures
        r == (tried < RELAY_ATTEMPTS),
{
    tried < RELAY_ATTEMPTS
}

/// Whether a connection opened `age_secs` seconds ago is too old to use.
pub open spec fn conn_expired_spec(age_secs: u64) -> bool {
    age_secs > CONN_TTL
}

/// Whether a connection opened `age_secs` seconds ago is too old to use.
pub fn conn_expired(age_secs: u64) -> (r: bool)
    ensures
        r == conn_expired_spec(age_secs),
{
    age_secs > CONN_TTL
}

/// Whether a pool holding `len` connections takes another.
pub fn pool_has_room(len: usize) -> (r: bool)
    ensures
        r == (len < POOL_MAX),
{
    len < POOL_MAX
}

/// Which pooled connection to hand out, given the ages in seconds of the pooled connections,
/// oldest pushed first: the pool is taken from the top, dropping expired connections, so the
/// result is the topmost connection that has not expired (everything above it is dropped), or
/// `None` when all have expired (and the pool is emptied).
pub fn fresh_top(ages: &[u64]) -> (r: Option<usize>)
    ensures
        match r {
            Some(i) => i < ages@.len() && ages@[i as int] <= CONN_TTL && forall|j: int|
                i < j < ages@.len() ==> #[trigger] ages@[j] > CONN_TTL,
            None => forall|j: int| 0 <= j < ages@.len() ==> #[trigger] ages@[j] > CONN_TTL,
        },
{
    let mut k = ages.len();
    while k > 0
        invariant
            k <= ages@.len(),
            forall|j: int| k <= j < ages@.len() ==> #[trigger] ages@[j] > CONN_TTL,
        decreases k,
    {
        if !conn_expired(ages[k - 1]) {
            return Some(k - 1);
        }
        k = k - 1;
    }
    None
}

/// The index of the topmost connection that has not expired, given the ages of the pooled
/// connections, oldest pushed first.
pub open spec fn last_fresh(ages: Seq<u64>) -> Option<int>
    decreases ages.len(),
{
    if ages.len() == 0 {
        None
    } else if ages.last() <= CONN_TTL {
        Some(ages.len() - 1)
    } else {
        last_fresh(ages.drop_last())
    }
}

/// The connections of `items` whose age in `ages` has not expired, in their order.
pub open spec fn fresh_only<C>(items: Seq<C>, ages: Seq<u64>) -> Seq<C>
    decreases items.len(),
{
    if items.len() == 0 || ages.len() == 0 {
        Seq::empty()
    } else {
        fresh_only(items.drop_last(), ages.drop_last()) + if ages.last() <= CONN_TTL {
            seq![items.last()]
        } else {
            Seq::empty()
        }
    }
}

/// The relay's pool of open connections, oldest pushed first. Taking a newly opened connection
/// never takes the pool beyond `POOL_MAX`.
pub struct ConnPool<C> {
    conns: Vec<C>,
}

impl<C> ConnPool<C> {
    /// The pooled connections, oldest pushed first.
    pub closed spec fn items(&self) -> Seq<C> {
        self.conns@
    }

    /// An empty pool.
    pub fn new() -> (r: ConnPool<C>)
        ensures
            r.items() == Seq::<C>::empty(),
    {
        ConnPool { conns: Vec::new() }
    }

    /// How many connections the pool holds.
    pub fn len(&self) -> (r: usize)
        ensures
            r == self.items().len(),
    {
        self.conns.len()
    }

    /// The `i`-th pooled connection.
    pub fn get(&self, i: usize) -> (r: &C)
        requires
            i < self.items().len(),
        ensures
            *r == self.items()[i as int],
    {
        &self.conns[i]
    }

    /// Takes a newly opened connection while the pool has room; returns whether it did (a
    /// connection not taken is closed).
    pub fn offer(&mut self, c: C) -> (kept: bool)
        ensures
            kept == (old(self).items().len() < POOL_MAX),
            final(self).items() == if kept {
                old(self).items().push(c)
            } else {
                old(self).items()
            },
            old(self).items().len() <= POOL_MAX ==> final(self).items().len() <= POOL_MAX,
    {
        if pool_has_room(self.conns.len()) {
            self.conns.push(c);
            true
        } else {
            false
        }
    }

    /// Takes back a used connection that was opened `age_secs` seconds ago, unless it has
    /// expired; there is no limit on connections given back.
    pub fn release(&mut self, c: C, age_secs: u64)
        ensures
            final(self).items() == if conn_expired_spec(age_secs) {
                old(self).items()
            } else {
                old(self).items().push(c)
            },
    {
        if !conn_expired(age_secs) {
            self.conns.push(c);
        }
    }

    /// Hands out the topmost connection that has not expired, given the ages in seconds of the
    /// pooled ones; the expired ones above it are dropped, and all of them when none is left.
    pub fn acquire(&mut self, ages: &[u64]) -> (r: Option<C>)
        requires
            ages@.len() == old(self).items().len(),
        ensures
            match last_fresh(ages@) {
                Some(i) => r == Some(old(self).items()[i]) && final(self).items() == old(
                    self,
                ).items().take(i),
                None => r is None && final(self).items().len() == 0,
            },
    {
        let n = self.conns.len();
        let mut k = n;
        assert(ages@.take(n as int) =~= ages@);
        assert(self.conns@.take(n as int) =~= self.conns@);
        while k > 0
            invariant
                k <= n,
                n == ages@.len(),
                n == old(self).conns@.len(),
                self.conns@ == old(self).conns@.take(k as int),
                last_fresh(ages@) == last_fresh(ages@.take(k as int)),
            decreases k,
        {
            let ghost before = self.conns@;
            let c = match self.conns.pop() {
                Some(c) => c,
                None => return None,
            };
            k = k - 1;
            assert(ages@.take(k + 1).drop_last() =~= ages@.take(k as int));
            assert(self.conns@ =~= old(self).conns@.take(k as int));
            assert(c == old(self).conns@[k as int]);
            if !conn_expired(ages[k]) {
                return Some(c);
            }
        }
        None
    }

    /// Drops the connections that have expired, given the ages in seconds of the pooled ones.
    pub fn retain_fresh(&mut self, ages: &[u64])
        requires
            ages@.len() == old(self).items().len(),
        ensures
            final(self).items() == fresh_only(old(self).items(), ages@),
    {
        let n = self.conns.len();
        let mut kept: Vec<C> = Vec::new();
        let mut i: usize = 0;
        assert(old(self).conns@.take(0) =~= Seq::<C>::empty());
        assert(old(self).conns@.skip(0) =~= old(self).conns@);
        while i < n
            invariant
                i <= n,
                n == ages@.len(),
                n == old(self).conns@.len(),
                self.conns@ == old(self).conns@.skip(i as int),
                kept@ == fresh_only(old(self).conns@.take(i as int), ages@.take(i as int)),
            decreases n - i,
        {
            let c = self.conns.remove(0);
            assert(c == old(self).conns@[i as int]);
            assert(self.conns@ =~= old(self).conns@.skip(i + 1));
            assert(old(self).conns@.take(i + 1).drop_last() =~= old(self).conns@.take(i as int));
            assert(ages@.take(i + 1).drop_last() =~= ages@.take(i as int));
            if !conn_expired(ages[i]) {
                kept.push(c);
            }
            i = i + 1;
        }
        assert(old(self).conns@.take(n as int) =~= old(self).conns@);
        assert(ages@.take(n as int) =~= ages@);
        self.conns = kept;
    }
}

/// The relay client's choice of script and its request texts. The connection pool and its
/// tasks are held beside it.
pub struct Fronter {
    pub http_host: &'static str,
    pub script_ids: Vec<(String, String)>,
    pub script_idx: usize,
    pub dev_available: bool,
    pub proxy_url: String,
    /// How many request paths were made so far.
    pub calls: Ghost<nat>,
}

/// The script index a request uses when the counter stands at `idx`: the counter itself,
/// or 0 once it has run past the last script.
pub open spec fn pick(idx: usize, len: nat) -> nat {
    if idx >= len {
        0
    } else {
        idx as nat
    }
}

/// The counter after `k` requests, starting from 0.
pub open spec fn idx_after(len: nat, k: nat) -> nat
    decreases k,
{
    if k == 0 {
        0
    } else {
        let prev = idx_after(len, (k - 1) as nat);
        (if prev >= len {
            0
        } else {
            prev
        }) + 1
    }
}

/// The path of a relay request to script `sid` with key `auth`.
pub open spec fn exec_path_text(sid: Seq<char>, auth: Seq<char>, dev: bool, proxy_url: Seq<char>) -> Seq<
    char,
> {
    "/macros/s/"@ + sid + "/"@ + (if dev {
        "dev"@
    } else {
        "exec"@
    }) + "?t="@ + proxy_url + "&a="@ + auth
}

/// The head of a relay POST request with a body of `len` bytes.
pub open spec fn post_head_text(path: Seq<char>, host: Seq<char>, len: nat) -> Seq<char> {
    "POST "@ + path + " HTTP/1.1\r\nHOST: "@ + host + "\r\nContent-Type: text/plain\r\nContent-Length: "@
        + decimal(len)
        + "\r\nAccept-Encoding: gzip\r\nConnection: keep-alive\r\n\r\n"@
}

/// The head of a GET request that follows a redirect.
pub open spec fn get_head_text(path: Seq<char>, host: Seq<char>) -> Seq<char> {
    "GET "@ + path + " HTTP/1.1\r\nHOST: "@ + host + "\r\nAccept-Encoding: gzip\r\nConnection: keep-alive\r\n\r\n"@
}

/// Requests go to the scripts in turn: starting from 0, the `k`-th request uses script
/// `k % len`.
pub proof fn lemma_round_robin(len: nat, k: nat)
    requires
        len > 0,
    ensures
        (if idx_after(len, k) >= len {
            0
        } else {
            idx_after(len, k)
        }) == k % len,
    decreases k,
{
    if k == 0 {
        assert(0nat % len == 0) by (nonlinear_arith)
            requires
                len > 0,
        ;
    } else {
        lemma_round_robin(len, (k - 1) as nat);
        let j = (k - 1) as nat;
        assert(k % len == if j % len + 1 == len {
            0
        } else {
            j % len + 1
        }) by (nonlinear_arith)
            requires
                len > 0,
                k == j + 1,
        {
            vstd::arithmetic::div_mod::lemma_mod_add_multiples_vanish(0, len as int);
            vstd::arithmetic::div_mod::lemma_fundamental_div_mod(j as int, len as int);
            vstd::arithmetic::div_mod::lemma_fundamental_div_mod(k as int, len as int);
            vstd::arithmetic::div_mod::lemma_mod_pos_bound(j as int, len as int);
            vstd::arithmetic::div_mod::lemma_mod_pos_bound(k as int, len as int);
        }
    }
}

impl Fronter {
    /// The counter stands where the requests made so far have left it, starting from 0.
    pub open spec fn wf(&self) -> bool {
        self.script_idx == idx_after(self.script_ids@.len(), self.calls@)
    }

    /// A relay client that posts to the scripts `script_ids` (pairs of script id and key) and
    /// asks them to forward to the batch endpoint of the server at `alzahra`.
    pub fn new(alzahra: &str, script_ids: Vec<(String, String)>) -> (r: Fronter)
        ensures
            r.http_host@ == HTTP_HOST@,
            r.script_ids == script_ids,
            r.script_idx == 0,
            !r.dev_available,
            r.proxy_url@ == alzahra@ + "/api/proxy/bin-batch/"@,
            r.calls@ == 0,
            r.wf(),
    {
        let mut proxy_url = String::new();
        push_str(&mut proxy_url, alzahra);
        push_str(&mut proxy_url, "/api/proxy/bin-batch/");
        Fronter {
            http_host: HTTP_HOST,
            script_ids,
            script_idx: 0,
            dev_available: false,
            proxy_url,
            calls: Ghost(0),
        }
    }

    /// The path of the next relay request, taking the scripts in turn.
    pub fn exec_path(&mut self) -> (path: String)
        requires
            old(self).script_ids@.len() > 0,
        ensures
            ({
                let i = pick(old(self).script_idx, old(self).script_ids@.len());
                let (sid, auth) = old(self).script_ids@[i as int];
                &&& final(self).script_idx == i + 1
                &&& path@ == exec_path_text(
                    sid@,
                    auth@,
                    old(self).dev_available,
                    old(self).proxy_url@,
                )
            }),
            final(self).script_ids == old(self).script_ids,
            final(self).dev_available == old(self).dev_available,
            final(self).proxy_url == old(self).proxy_url,
            final(self).http_host == old(self).http_host,
            final(self).calls@ == old(self).calls@ + 1,
            old(self).wf() ==> final(self).wf(),
            old(self).wf() ==> pick(old(self).script_idx, old(self).script_ids@.len()) == old(
                self,
            ).calls@ % old(self).script_ids@.len(),
    {
        proof {
            if old(self).wf() {
                lemma_round_robin(old(self).script_ids@.len(), old(self).calls@);
            }
        }
        self.calls = Ghost(self.calls@ + 1);
        if self.script_idx >= self.script_ids.len() {
            self.script_idx = 0;
        }
        let sdx = self.script_idx;
        self.script_idx = self.script_idx + 1;
        let (sid, auth) = &self.script_ids[sdx];
        let mut path = String::new();
        push_str(&mut path, "/macros/s/");
        push_str(&mut path, sid.as_str());
        push_str(&mut path, "/");
        if self.dev_available {
            push_str(&mut path, "dev");
        } else {
            push_str(&mut path, "exec");
        }
        push_str(&mut path, "?t=");
        push_str(&mut path, self.proxy_url.as_str());
        push_str(&mut path, "&a=");
        push_str(&mut path, auth.as_str());
        assert(path@ =~= exec_path_text(sid@, auth@, self.dev_available, self.proxy_url@));
        path
    }
}

/// The head of a relay POST request with a body of `len` bytes.
pub fn post_head(path: &str, host: &str, len: usize) -> (r: String)
    ensures
        r@ == post_head_text(path@, host@, len as nat),
{
    let mut s = String::new();
    push_str(&mut s, "POST ");
    push_str(&mut s, path);
    push_str(&mut s, " HTTP/1.1\r\nHOST: ");
    push_str(&mut s, host);
    push_str(&mut s, "\r\nContent-Type: text/plain\r\nContent-Length: ");
    push_decimal(&mut s, len as u64);
    push_str(&mut s, "\r\nAccept-Encoding: gzip\r\nConnection: keep-alive\r\n\r\n");
    assert(s@ =~= post_head_text(path@, host@, len as nat));
    s
}

/// The head of a GET request that follows a redirect to `path` on `host`.
pub fn get_head(path: &str, host: &str) -> (r: String)
    ensures
        r@ == get_head_text(path@, host@),
{
    let mut s = String::new();
    push_str(&mut s, "GET ");
    push_str(&mut s, path);
    push_str(&mut s, " HTTP/1.1\r\nHOST: ");
    push_str(&mut s, host);
    push_str(&mut s, "\r\nAccept-Encoding: gzip\r\nConnection: keep-alive\r\n\r\n");
    assert(s@ =~= get_head_text(path@, host@));
    s
}

} // verus!
