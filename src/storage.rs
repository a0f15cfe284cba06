//! The storage contract that a backend implements, and the read fan-out that
//! turns one read request into one response.
use vstd::prelude::*;

use crate::types::{
    Query, QueryResult, QueryResultView, QueryView, ReadRequest, ReadResponse, ReadResponseView,
    WriteRequest,
};

verus! {

/// What a query call handed back, with the result seen through its view.
pub open spec fn result_view<E>(r: Result<QueryResult, E>) -> Result<QueryResultView, E> {
    match r {
        Ok(v) => Ok(v@),
        Err(e) => Err(e),
    }
}

/// Each outcome seen through `result_view`.
pub open spec fn outcome_views<E>(outcomes: Seq<Result<QueryResult, E>>) -> Seq<Result<QueryResultView, E>> {
    outcomes.map_values(|o: Result<QueryResult, E>| result_view(o))
}

/// The outcome of a fan-out over `outcomes`, one per query, in query order:
/// the first failure by index, or every result in order.
pub open spec fn fan_in<E>(outcomes: Seq<Result<QueryResultView, E>>) -> Result<Seq<QueryResultView>, E>
    decreases outcomes.len(),
{
    if outcomes.len() == 0 {
        Ok(Seq::empty())
    } else {
        match fan_in(outcomes.drop_last()) {
            Err(e) => Err(e),
            Ok(rs) => match outcomes.last() {
                Err(e) => Err(e),
                Ok(r) => Ok(rs.push(r)),
            },
        }
    }
}

/// Once a prefix of the outcomes holds a failure, every longer prefix fails
/// with that same failure.
pub proof fn lemma_fan_in_err_extends<E>(outcomes: Seq<Result<QueryResultView, E>>, k: int)
    requires
        0 <= k <= outcomes.len(),
        fan_in(outcomes.take(k)) is Err,
    ensures
        forall|m: int| k <= m <= outcomes.len() ==> fan_in(#[trigger] outcomes.take(m)) == fan_in(outcomes.take(k)),
    decreases outcomes.len() - k,
{
    if k < outcomes.len() {
        assert(outcomes.take(k + 1).drop_last() =~= outcomes.take(k));
        lemma_fan_in_err_extends(outcomes, k + 1);
    }
}

/// When every call succeeded, the gathered response holds every result, in
/// query order.
pub proof fn lemma_fan_in_all_ok<E>(outcomes: Seq<Result<QueryResultView, E>>, results: Seq<QueryResultView>)
    requires
        outcomes.len() == results.len(),
        forall|i: int| 0 <= i < outcomes.len() ==> #[trigger] outcomes[i] == Ok::<QueryResultView, E>(results[i]),
    ensures
        fan_in(outcomes) == Ok::<Seq<QueryResultView>, E>(results),
    decreases outcomes.len(),
{
    if outcomes.len() == 0 {
        assert(results =~= Seq::<QueryResultView>::empty());
    } else {
        let n = outcomes.len() - 1;
        assert forall|i: int| 0 <= i < n implies #[trigger] outcomes.drop_last()[i] == Ok::<QueryResultView, E>(results.drop_last()[i]) by {
            assert(outcomes[i] == Ok::<QueryResultView, E>(results[i]));
        }
        lemma_fan_in_all_ok(outcomes.drop_last(), results.drop_last());
        assert(outcomes[n] == Ok::<QueryResultView, E>(results[n]));
        assert(results.drop_last().push(results[n]) =~= results);
    }
}

/// When any one call failed, the gathered outcome is a failure.
pub proof fn lemma_fan_in_fails<E>(outcomes: Seq<Result<QueryResultView, E>>, k: int)
    requires
        0 <= k < outcomes.len(),
        outcomes[k] is Err,
    ensures
        fan_in(outcomes) is Err,
    decreases outcomes.len(),
{
    if k < outcomes.len() - 1 {
        assert(outcomes.drop_last()[k] == outcomes[k]);
        lemma_fan_in_fails(outcomes.drop_last(), k);
    }
}

/// Gathers the outcomes of the per-query calls, given in query order, into
/// one response: the first failure by index wins, and no partial response is
/// built.
pub fn assemble_read_response<E>(outcomes: Vec<Result<QueryResult, E>>) -> (r: Result<ReadResponse, E>)
    ensures
        match (r, fan_in(outcome_views(outcomes@))) {
            (Ok(resp), Ok(rs)) => resp@.results == rs,
            (Err(e), Err(f)) => e == f,
            _ => false,
        },
{
    let ghost views = outcome_views(outcomes@);
    let mut pending = outcomes;
    let mut results: Vec<QueryResult> = Vec::new();
    let n = pending.len();
    let mut i: usize = 0;
    assert(views.take(0) =~= Seq::<Result<QueryResultView, E>>::empty());
    assert(results@.map_values(|q: QueryResult| q@) =~= Seq::<QueryResultView>::empty());
    while i < n
        invariant
            0 <= i <= n == views.len(),
            views == outcome_views(outcomes@),
            pending@.len() == n - i,
            forall|j: int| 0 <= j < n - i ==> result_view(#[trigger] pending@[j]) == views[i + j],
            fan_in(views.take(i as int)) == Ok::<Seq<QueryResultView>, E>(
                results@.map_values(|q: QueryResult| q@),
            ),
        decreases n - i,
    {
        assert(views.take(i + 1).drop_last() =~= views.take(i as int));
        let next = pending.remove(0);
        assert(result_view(next) == views[i as int]);
        match next {
            Ok(v) => {
                let ghost before = results@.map_values(|q: QueryResult| q@);
                results.push(v);
                assert(results@.map_values(|q: QueryResult| q@) =~= before.push(v@));
            },
            Err(e) => {
                proof {
                    assert(views.take(i + 1).last() == views[i as int]);
                    assert(fan_in(views.take(i + 1)) == Err::<Seq<QueryResultView>, E>(e));
                    lemma_fan_in_err_extends(views, i + 1);
                    assert(views.take(views.len() as int) =~= views);
                }
                return Err(e);
            },
        }
        i = i + 1;
    }
    assert(views.take(n as int) =~= views);
    Ok(ReadResponse { results })
}

/// What a read over `queries` may return, where `answers(q, o)` says whether
/// the backend may give outcome `o` to query `q`: on success one result per
/// query, in query order, each an answer to that query; on failure an error
/// that the backend may give to one of the queries, every query before it
/// having been answered.
pub open spec fn read_answers<E>(
    answers: spec_fn(QueryView, Result<QueryResultView, E>) -> bool,
    queries: Seq<QueryView>,
    r: Result<ReadResponseView, E>,
) -> bool {
    match r {
        Ok(resp) => {
            &&& resp.results.len() == queries.len()
            &&& forall|i: int| 0 <= i < queries.len() ==> answers(queries[i], Ok(#[trigger] resp.results[i]))
        },
        Err(e) => fails_at_first(answers, queries, e),
    }
}

/// Query `i` may fail with `e`, and every query before it may succeed.
pub open spec fn fails_at<E>(
    answers: spec_fn(QueryView, Result<QueryResultView, E>) -> bool,
    queries: Seq<QueryView>,
    e: E,
    i: int,
) -> bool {
    &&& 0 <= i < queries.len()
    &&& answers(queries[i], Err(e))
    &&& forall|j: int| 0 <= j < i ==> answered(answers, #[trigger] queries[j])
}

/// The backend may answer query `q` with some result.
pub open spec fn answered<E>(answers: spec_fn(QueryView, Result<QueryResultView, E>) -> bool, q: QueryView) -> bool {
    exists|o: QueryResultView| #[trigger] answers(q, Ok(o))
}

/// Some query may fail with `e`, every query before it having been answered.
pub open spec fn fails_at_first<E>(
    answers: spec_fn(QueryView, Result<QueryResultView, E>) -> bool,
    queries: Seq<QueryView>,
    e: E,
) -> bool {
    exists|i: int| #[trigger] fails_at(answers, queries, e, i)
}

/// Where every query has exactly one possible outcome, `results[i]` for
/// query `i`, a read succeeds with exactly those results in query order.
pub proof fn lemma_read_correspondence<E>(
    answers: spec_fn(QueryView, Result<QueryResultView, E>) -> bool,
    queries: Seq<QueryView>,
    results: Seq<QueryResultView>,
    r: Result<ReadResponseView, E>,
)
    requires
        results.len() == queries.len(),
        forall|i: int, o: Result<QueryResultView, E>|
            0 <= i < queries.len() && #[trigger] answers(queries[i], o) ==> o == Ok::<QueryResultView, E>(results[i]),
        read_answers(answers, queries, r),
    ensures
        r == Ok::<ReadResponseView, E>(ReadResponseView { results }),
{
    match r {
        Ok(resp) => {
            assert forall|i: int| 0 <= i < queries.len() implies resp.results[i] == results[i] by {
                assert(answers(queries[i], Ok(resp.results[i])));
            }
            assert(resp.results =~= results);
        },
        Err(e) => {
            assert(r->Err_0 == e);
            assert(fails_at_first(answers, queries, e));
            let i = choose|i: int| #[trigger] fails_at(answers, queries, e, i);
            assert(answers(queries[i], Err(e)));
        },
    }
}

/// Where every query has exactly one possible outcome, a read's outcome is
/// determined: the results in order, or the failure of the first query by
/// index that fails.
pub proof fn lemma_read_deterministic<E>(
    answers: spec_fn(QueryView, Result<QueryResultView, E>) -> bool,
    queries: Seq<QueryView>,
    outcomes: Seq<Result<QueryResultView, E>>,
    r1: Result<ReadResponseView, E>,
    r2: Result<ReadResponseView, E>,
)
    requires
        outcomes.len() == queries.len(),
        forall|i: int, o: Result<QueryResultView, E>|
            0 <= i < queries.len() && #[trigger] answers(queries[i], o) ==> o == outcomes[i],
        read_answers(answers, queries, r1),
        read_answers(answers, queries, r2),
    ensures
        r1 == r2,
        r1 matches Err(e) ==> exists|k: int|
            0 <= k < outcomes.len() && outcomes[k] == Err::<QueryResultView, E>(e) && forall|j: int|
                0 <= j < k ==> (#[trigger] outcomes[j]) is Ok,
{
    assert forall|i: int, o: QueryResultView| 0 <= i < queries.len() && #[trigger] answers(queries[i], Ok(o))
        implies outcomes[i] is Ok by {
        assert(answers(queries[i], Ok(o)));
    }
    if r1 is Ok && r2 is Ok {
        let a = r1->Ok_0;
        let b = r2->Ok_0;
        assert forall|i: int| 0 <= i < queries.len() implies a.results[i] == b.results[i] by {
            assert(answers(queries[i], Ok(a.results[i])));
            assert(answers(queries[i], Ok(b.results[i])));
        }
        assert(a.results =~= b.results);
    } else if r1 is Ok {
        let a = r1->Ok_0;
        let e = r2->Err_0;
        assert(fails_at_first(answers, queries, e));
        let i = choose|i: int| #[trigger] fails_at(answers, queries, e, i);
        assert(answers(queries[i], Ok(a.results[i])));
    } else if r2 is Ok {
        let b = r2->Ok_0;
        let e = r1->Err_0;
        assert(fails_at_first(answers, queries, e));
        let i = choose|i: int| #[trigger] fails_at(answers, queries, e, i);
        assert(answers(queries[i], Ok(b.results[i])));
    } else {
        let e1 = r1->Err_0;
        let e2 = r2->Err_0;
        assert(fails_at_first(answers, queries, e1));
        assert(fails_at_first(answers, queries, e2));
        let i1 = choose|i: int| #[trigger] fails_at(answers, queries, e1, i);
        let i2 = choose|i: int| #[trigger] fails_at(answers, queries, e2, i);
        if i1 < i2 {
            assert(answered(answers, queries[i1]));
            let o = choose|o: QueryResultView| #[trigger] answers(queries[i1], Ok(o));
            assert(outcomes[i1] is Ok);
        } else if i2 < i1 {
            assert(answered(answers, queries[i2]));
            let o = choose|o: QueryResultView| #[trigger] answers(queries[i2], Ok(o));
            assert(outcomes[i2] is Ok);
        }
        assert(i1 == i2);
        assert(outcomes[i1] == Err::<QueryResultView, E>(e1));
        assert(outcomes[i1] == Err::<QueryResultView, E>(e2));
    }
    if r1 is Err {
        let e = r1->Err_0;
        assert(fails_at_first(answers, queries, e));
        let i = choose|i: int| #[trigger] fails_at(answers, queries, e, i);
        assert forall|j: int| 0 <= j < i implies (#[trigger] outcomes[j]) is Ok by {
            assert(answered(answers, queries[j]));
            let o = choose|o: QueryResultView| #[trigger] answers(queries[j], Ok(o));
        }
        assert(outcomes[i] == Err::<QueryResultView, E>(e));
    }
}

/// A read of no queries succeeds with no results.
pub proof fn lemma_read_empty<E>(
    answers: spec_fn(QueryView, Result<QueryResultView, E>) -> bool,
    queries: Seq<QueryView>,
    r: Result<ReadResponseView, E>,
)
    requires
        queries.len() == 0,
        read_answers(answers, queries, r),
    ensures
        r == Ok::<ReadResponseView, E>(ReadResponseView { results: Seq::empty() }),
{
    match r {
        Ok(resp) => {
            assert(resp.results =~= Seq::<QueryResultView>::empty());
        },
        Err(e) => {},
    }
}

/// Where one of the queries can only fail, the whole read fails and no
/// response is produced.
pub proof fn lemma_read_fails_with_query<E>(
    answers: spec_fn(QueryView, Result<QueryResultView, E>) -> bool,
    queries: Seq<QueryView>,
    k: int,
    r: Result<ReadResponseView, E>,
)
    requires
        0 <= k < queries.len(),
        forall|o: Result<QueryResultView, E>| #[trigger] answers(queries[k], o) ==> o is Err,
        read_answers(answers, queries, r),
    ensures
        r is Err,
{
    match r {
        Ok(resp) => {
            assert(answers(queries[k], Ok(resp.results[k])));
        },
        Err(e) => {},
    }
}

/// A read outcome seen through the response's view.
pub open spec fn response_view<E>(r: Result<ReadResponse, E>) -> Result<ReadResponseView, E> {
    match r {
        Ok(v) => Ok(v@),
        Err(e) => Err(e),
    }
}

/// The seam between the protocol and a concrete time-series backend.
///
/// A backend says, through `answers`, which outcomes it may give to a query;
/// the contract holds whether or not it is deterministic.
pub trait RemoteStorage {
    /// The failures of this backend.
    type Err;

    /// The request-scoped values threaded through every call.
    type Context;

    /// Whether `r` is an outcome this backend may give to query `q` under `ctx`.
    spec fn answers(&self, ctx: &Self::Context, q: QueryView, r: Result<QueryResultView, Self::Err>) -> bool;

    /// Persists every series of the batch; any failure fails the whole write.
    fn write(&self, ctx: Self::Context, req: WriteRequest) -> Result<(), Self::Err>;

    /// Answers exactly one query.
    fn process_query(&self, ctx: &Self::Context, q: Query) -> (r: Result<QueryResult, Self::Err>)
        ensures
            self.answers(ctx, q@, result_view(r)),
    ;

    /// Answers every query of the request, in order; the first failure by
    /// index fails the whole read.
    fn read(&self, ctx: Self::Context, req: ReadRequest) -> (r: Result<ReadResponse, Self::Err>)
        ensures
            read_answers(
                |q: QueryView, o: Result<QueryResultView, Self::Err>| self.answers(&ctx, q, o),
                req@.queries,
                response_view(r),
            ),
    {
        let ghost queries = req@.queries;
        let mut pending = req.queries;
        let mut results: Vec<QueryResult> = Vec::new();
        let n = pending.len();
        let mut i: usize = 0;
        while i < n
            invariant
                0 <= i <= n == queries.len(),
                queries == req@.queries,
                pending@.len() == n - i,
                forall|j: int| 0 <= j < n - i ==> (#[trigger] pending@[j])@ == queries[i + j],
                results@.len() == i,
                forall|j: int|
                    0 <= j < i ==> self.answers(&ctx, queries[j], Ok((#[trigger] results@[j])@)),
            decreases n - i,
        {
            let q = pending.remove(0);
            assert(q@ == queries[i as int]);
            match self.process_query(&ctx, q) {
                Ok(v) => results.push(v),
                Err(e) => {
                    let ghost answers = |q: QueryView, o: Result<QueryResultView, Self::Err>|
                        self.answers(&ctx, q, o);
                    assert(answers(queries[i as int], Err(e)));
                    assert forall|j: int| 0 <= j < i implies answered(answers, #[trigger] queries[j]) by {
                        assert(answers(queries[j], Ok(results@[j]@)));
                    }
                    assert(fails_at(answers, queries, e, i as int));
                    assert(read_answers(answers, queries, Err(e))) by {
                        let r = Err::<ReadResponseView, Self::Err>(e);
                        assert(r->Err_0 == e);
                    }
                    return Err(e);
                },
            }
            i = i + 1;
        }
        let resp = ReadResponse { results };
        assert forall|j: int| 0 <= j < queries.len() implies self.answers(
            &ctx,
            queries[j],
            Ok(#[trigger] resp@.results[j]),
        ) by {
            assert(resp@.results[j] == resp.results@[j]@);
        }
        Ok(resp)
    }
}

} // verus!
