//! Overpass: which instance is asked, what for, and what its replies are worth.
use vstd::prelude::*;

use super::zone;
use super::zone::{put_fixed4, ZoneKey};
use crate::text;
use crate::text::{http_error, starts_with_char};

verus! {

/// The ways that are asked for.
pub const HIGHWAY_FILTER: &'static str =
    "^(path|track|footway|bridleway|steps|cycleway|pedestrian|living_street|unclassified|residential|tertiary)$";

/// The query for the ways of a zone.
pub open spec fn query_text(z: ZoneKey) -> Seq<char> {
    let side = z.side();
    "[out:json][timeout:60];\nway[\"highway\"~\""@ + HIGHWAY_FILTER@ + "\"]("@ + zone::fixed4(
        z.lat * side,
    ) + ","@ + zone::fixed4(z.lon * side) + ","@ + zone::fixed4(z.lat * side + side) + ","@
        + zone::fixed4(z.lon * side + side) + ");\nout geom;"@
}

/// The instances that can be asked, all of which hold the whole planet: one that
/// holds a region answers with success and no ways elsewhere.
#[derive(Clone, Debug)]
pub struct OverpassSource {
    pub endpoints: Vec<String>,
    /// The instance that last answered with data. Without it every zone would
    /// start over at the first one, and find out anew that it is dead.
    pub preferred: usize,
}

impl Default for OverpassSource {
    fn default() -> (s: Self)
        ensures
            s.wf(),
            s.preferred == 0,
            s.endpoints@.len() == 3,
            s.endpoints@[0]@ == "https://overpass-api.de/api/interpreter"@,
            s.endpoints@[1]@ == "https://overpass.kumi.systems/api/interpreter"@,
            s.endpoints@[2]@ == "https://maps.mail.ru/osm/tools/overpass/api/interpreter"@,
    {
        let mut endpoints: Vec<String> = Vec::new();
        endpoints.push("https://overpass-api.de/api/interpreter".to_owned());
        endpoints.push("https://overpass.kumi.systems/api/interpreter".to_owned());
        endpoints.push("https://maps.mail.ru/osm/tools/overpass/api/interpreter".to_owned());
        OverpassSource { endpoints, preferred: 0 }
    }
}

impl OverpassSource {
    /// There is an instance, and the preferred one is among them.
    pub open spec fn wf(&self) -> bool {
        self.preferred < self.endpoints@.len()
    }

    /// The instance to ask at an attempt, counted from the preferred one.
    pub open spec fn index_at(&self, attempt: int) -> int {
        (self.preferred + attempt) % self.endpoints@.len() as int
    }

    /// The instance to ask at an attempt: the preferred one first, then the
    /// others in order.
    pub fn endpoint_index(&self, attempt: usize) -> (i: usize)
        requires
            self.wf(),
        ensures
            i == self.index_at(attempt as int),
            i < self.endpoints@.len(),
    {
        ((self.preferred as u128 + attempt as u128) % self.endpoints.len() as u128) as usize
    }

    /// The address to ask at an attempt.
    pub fn endpoint(&self, attempt: usize) -> (s: &String)
        requires
            self.wf(),
        ensures
            s@ == self.endpoints@[self.index_at(attempt as int)]@,
    {
        &self.endpoints[self.endpoint_index(attempt)]
    }

    /// The address that the next zone is asked from first.
    pub fn preferred_endpoint(&self) -> (s: &String)
        requires
            self.wf(),
        ensures
            s@ == self.endpoints@[self.preferred as int]@,
    {
        proof {
            vstd::arithmetic::div_mod::lemma_small_mod(
                self.preferred as nat,
                self.endpoints@.len(),
            );
        }
        self.endpoint(0)
    }

    /// Records the instance that answered, so that the next zone starts there.
    pub fn note_success(&mut self, index: usize)
        requires
            index < old(self).endpoints@.len(),
        ensures
            final(self).wf(),
            final(self).endpoints == old(self).endpoints,
            final(self).preferred == index,
    {
        self.preferred = index;
    }

    /// How many instances there are.
    pub fn endpoint_count(&self) -> (n: usize)
        ensures
            n == self.endpoints@.len(),
    {
        self.endpoints.len()
    }

    /// The query for the ways of a zone.
    pub fn query(zone: ZoneKey) -> (q: String)
        requires
            zone.ok(),
        ensures
            q@ == query_text(zone),
    {
        let (s, w, n, e) = zone.bbox();
        let mut q = "[out:json][timeout:60];\nway[\"highway\"~\"".to_owned();
        q.append(HIGHWAY_FILTER);
        q.append("\"](");
        put_fixed4(&mut q, s);
        q.append(",");
        put_fixed4(&mut q, w);
        q.append(",");
        put_fixed4(&mut q, n);
        q.append(",");
        put_fixed4(&mut q, e);
        q.append(");\nout geom;");
        q
    }
}

/// What a reply is worth: its text, unless the server refused or there is none.
pub fn overpass_reply(ok: bool, status: u16, status_text: &str, body: Option<String>) -> (r: Result<
    String,
    String,
>)
    ensures
        match r {
            Ok(s) => ok && body == Some(s),
            Err(e) => if !ok {
                e@ == text::http_error_text(status, status_text@)
            } else {
                body is None && e@ == "non-textual response"@
            },
        },
{
    if !ok {
        return Err(http_error(status, status_text));
    }
    match body {
        Some(s) => Ok(s),
        None => Err("non-textual response".to_owned()),
    }
}

/// Whether a reply speaks for its instance: only one that looks like JSON does,
/// for an overloaded instance serves a page of text with a status of success.
pub fn counts_as_success(body: &Result<String, String>) -> (b: bool)
    ensures
        b == match body {
            Ok(s) => text::opens_with(s@, '{'),
            Err(_) => false,
        },
{
    match body {
        Ok(s) => starts_with_char(s.as_str(), '{'),
        Err(_) => false,
    }
}

/// A full round of attempts asks every instance, and none twice.
pub proof fn law_a_round_asks_each_endpoint_once(s: OverpassSource, k: int)
    requires
        s.wf(),
        0 <= k < s.endpoints@.len(),
    ensures
        exists|a: int| 0 <= a < s.endpoints@.len() && #[trigger] s.index_at(a) == k,
        forall|i: int, j: int|
            0 <= i < j < s.endpoints@.len() ==> #[trigger] s.index_at(i) != #[trigger] s.index_at(j),
{
    let n = s.endpoints@.len() as int;
    let p = s.preferred as int;
    assert forall|i: int| 0 <= i < n implies #[trigger] s.index_at(i) == if p + i < n {
        p + i
    } else {
        p + i - n
    } by {
        if p + i < n {
            vstd::arithmetic::div_mod::lemma_small_mod((p + i) as nat, n as nat);
        } else {
            vstd::arithmetic::div_mod::lemma_mod_sub_multiples_vanish(p + i, n);
            vstd::arithmetic::div_mod::lemma_small_mod((p + i - n) as nat, n as nat);
        }
    }
    if k >= p {
        assert(s.index_at(k - p) == k);
    } else {
        assert(s.index_at(k - p + n) == k);
    }
}

/// A query asks for the ways of all walkable classes in the window of its zone: its
/// south, west, north and east border, in that order.
pub proof fn law_a_query_asks_for_its_window(z: ZoneKey)
    requires
        z.ok(),
    ensures
        ({
            let side: int = if z.level == 0 {
                200
            } else {
                1000
            };
            query_text(z) == "[out:json][timeout:60];\nway[\"highway\"~\""@
                + "^(path|track|footway|bridleway|steps|cycleway|pedestrian|living_street|unclassified|residential|tertiary)$"@
                + "\"]("@ + zone::fixed4(z.lat * side) + ","@ + zone::fixed4(z.lon * side) + ","@
                + zone::fixed4((z.lat + 1) * side) + ","@ + zone::fixed4((z.lon + 1) * side)
                + ");\nout geom;"@
        }),
{
    let side = z.side();
    assert((z.lat + 1) * side == z.lat * side + side) by (nonlinear_arith);
    assert((z.lon + 1) * side == z.lon * side + side) by (nonlinear_arith);
}

/// Attempts start with the preferred instance and go on from one to the next, round
/// and round.
pub proof fn law_attempts_start_with_the_preferred_endpoint(s: OverpassSource, a: int)
    requires
        s.wf(),
        0 <= a,
    ensures
        s.index_at(0) == s.preferred,
        s.index_at(a + 1) == if s.index_at(a) + 1 < s.endpoints@.len() {
            s.index_at(a) + 1
        } else {
            0
        },
{
    let n = s.endpoints@.len() as int;
    let x = s.preferred + a;
    vstd::arithmetic::div_mod::lemma_small_mod(s.preferred as nat, n as nat);
    vstd::arithmetic::div_mod::lemma_fundamental_div_mod(x, n);
    vstd::arithmetic::div_mod::lemma_mod_bound(x, n);
    let q = x / n;
    let r = x % n;
    if r + 1 < n {
        assert(x + 1 == q * n + (r + 1)) by (nonlinear_arith)
            requires
                x == n * q + r,
        ;
        vstd::arithmetic::div_mod::lemma_fundamental_div_mod_converse(x + 1, n, q, r + 1);
    } else {
        assert(x + 1 == (q + 1) * n + 0) by (nonlinear_arith)
            requires
                x == n * q + r,
                r + 1 == n,
        ;
        vstd::arithmetic::div_mod::lemma_fundamental_div_mod_converse(x + 1, n, q + 1, 0);
    }
}

} // verus!
