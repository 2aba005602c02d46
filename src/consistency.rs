//! How many replica replies a statement waits for, and the decision over the replies.
use vstd::prelude::*;
use crate::consistency_level::ConsistencyLevel;
use crate::text::{chars_vec, string_of_chars, texts_of};

verus! {

/// The levels the coordinator acts on.
#[derive(Debug, Clone, Copy, PartialEq, Eq, Structural)]
pub enum Consistency {
    One,
    Quorum,
    All,
}

/// Successful replies needed out of `n` replicas.
pub open spec fn required_of(c: Consistency, n: nat) -> nat {
    match c {
        Consistency::One => 1,
        Consistency::Quorum => n / 2 + 1,
        Consistency::All => n,
    }
}

/// A reply with its NUL characters removed.
pub open spec fn strip_nul(s: Seq<char>) -> Seq<char> {
    s.filter(|c: char| c != '\0')
}

/// The bodies of the successful replies, in arrival order.
pub open spec fn ok_bodies(rs: Seq<Result<String, String>>) -> Seq<Seq<char>>
    decreases rs.len(),
{
    if rs.len() == 0 {
        Seq::empty()
    } else {
        let prev = ok_bodies(rs.drop_last());
        match rs.last() {
            Ok(s) => prev.push(strip_nul(s@)),
            Err(_) => prev,
        }
    }
}

impl Consistency {
    /// The coordinator's level for a level of the client protocol; the others act as `One`.
    pub fn from_consistency_level(consistency_level: ConsistencyLevel) -> (r: Self)
        ensures
            r == (match consistency_level {
                ConsistencyLevel::Quorum => Consistency::Quorum,
                ConsistencyLevel::All => Consistency::All,
                _ => Consistency::One,
            }),
    {
        match consistency_level {
            ConsistencyLevel::One => Consistency::One,
            ConsistencyLevel::Quorum => Consistency::Quorum,
            ConsistencyLevel::All => Consistency::All,
            _ => Consistency::One,
        }
    }

    /// Successful replies needed when the statement went to `nodes_to_resend_query` replicas.
    pub fn required_nodes(&self, nodes_to_resend_query: usize) -> (r: usize)
        ensures
            r == required_of(*self, nodes_to_resend_query as nat),
    {
        match self {
            Consistency::One => 1,
            Consistency::Quorum => nodes_to_resend_query / 2 + 1,
            Consistency::All => nodes_to_resend_query,
        }
    }

    /// Collects replies in arrival order, at most `nodes_to_resend_query` of them, until
    /// enough have succeeded. `responses` ends early where the replies stopped coming.
    pub fn check_consistency_level(
        &self,
        responses: &Vec<Result<String, String>>,
        nodes_to_resend_query: usize,
    ) -> (r: Result<Vec<String>, String>)
        ensures
            ({
                let window = responses@.take(
                    if responses@.len() < nodes_to_resend_query { responses@.len() as int } else {
                        nodes_to_resend_query as int
                    },
                );
                let need = required_of(*self, nodes_to_resend_query as nat);
                &&& r is Ok <==> ok_bodies(window).len() >= need
                &&& r is Ok ==> texts_of(r->Ok_0@) == ok_bodies(window).take(need as int)
                &&& r is Err ==> r->Err_0@ == "No se alcanzó el consistency level"@
            }),
    {
        let need = self.required_nodes(nodes_to_resend_query);
        let ghost limit: int = if responses@.len() < nodes_to_resend_query { responses@.len() as int } else {
            nodes_to_resend_query as int
        };
        let mut total: usize = 0;
        let mut oks: Vec<String> = Vec::new();
        while oks.len() < need && total < nodes_to_resend_query && total < responses.len()
            invariant
                total <= limit,
                limit <= responses@.len(),
                limit <= nodes_to_resend_query,
                limit == (if responses@.len() < nodes_to_resend_query { responses@.len() as int } else {
                    nodes_to_resend_query as int
                }),
                need == required_of(*self, nodes_to_resend_query as nat),
                oks@.len() <= need,
                texts_of(oks@) == ok_bodies(responses@.take(total as int)),
            decreases limit - total,
        {
            assert(responses@.take(total + 1).drop_last() =~= responses@.take(total as int));
            match &responses[total] {
                Ok(body) => {
                    let cs = chars_vec(body.as_str());
                    let mut kept: Vec<char> = Vec::new();
                    let mut j: usize = 0;
                    while j < cs.len()
                        invariant
                            j <= cs@.len(),
                            kept@ == strip_nul(cs@.take(j as int)),
                        decreases cs@.len() - j,
                    {
                        assert(cs@.take(j + 1).drop_last() =~= cs@.take(j as int));
                        reveal(Seq::filter);
                        if cs[j] != '\0' {
                            kept.push(cs[j]);
                        }
                        j = j + 1;
                    }
                    assert(cs@.take(j as int) =~= cs@);
                    let ghost prev = oks@;
                    oks.push(string_of_chars(&kept));
                    assert(texts_of(oks@) =~= texts_of(prev).push(
                        strip_nul(body@),
                    ));
                },
                Err(_) => {},
            }
            total = total + 1;
        }
        proof {
            let window = responses@.take(limit);
            lemma_ok_bodies_prefix(window, total as int);
            assert(window.take(total as int) =~= responses@.take(total as int));
        }
        if oks.len() == need {
            Ok(oks)
        } else {
            {
            let m = "No se alcanzó el consistency level".to_owned();
            Err(m)
        }
        }
    }
}

/// Successful replies never vanish as more replies arrive.
pub proof fn lemma_ok_bodies_prefix(rs: Seq<Result<String, String>>, k: int)
    requires
        0 <= k <= rs.len(),
    ensures
        ok_bodies(rs).len() >= ok_bodies(rs.take(k)).len(),
        ok_bodies(rs).take(ok_bodies(rs.take(k)).len() as int) == ok_bodies(rs.take(k)),
    decreases rs.len(),
{
    if k < rs.len() {
        assert(rs.drop_last().take(k) =~= rs.take(k));
        lemma_ok_bodies_prefix(rs.drop_last(), k);
        let a = ok_bodies(rs.drop_last());
        let b = ok_bodies(rs.take(k));
        assert(ok_bodies(rs).take(b.len() as int) =~= a.take(b.len() as int));
    } else {
        assert(rs.take(k) =~= rs);
        assert(ok_bodies(rs).take(ok_bodies(rs).len() as int) =~= ok_bodies(rs));
    }
}

/// QUORUM over `n` replicas succeeds on exactly `n / 2 + 1` successful replies: with one
/// fewer among the replies considered it fails.
pub proof fn lemma_quorum_threshold(n: nat)
    ensures
        required_of(Consistency::Quorum, n) == n / 2 + 1,
        required_of(Consistency::Quorum, n) >= 1,
        n >= 1 ==> required_of(Consistency::Quorum, n) <= n,
{
}

} // verus!
