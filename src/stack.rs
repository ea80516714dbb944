use vstd::prelude::*;

use crate::middleware::Middleware;

verus! {

/// True when no kind occurs twice in `kinds`.
pub open spec fn distinct(kinds: Seq<Seq<char>>) -> bool {
    forall|i: int, j: int| 0 <= i < j < kinds.len() ==> kinds[i] != kinds[j]
}

/// The index of the first occurrence of `kind`, if any.
pub open spec fn first_index(kinds: Seq<Seq<char>>, kind: Seq<char>) -> Option<int>
    decreases kinds.len(),
{
    if kinds.len() == 0 {
        None
    } else if kinds[0] == kind {
        Some(0)
    } else {
        match first_index(kinds.drop_first(), kind) {
            Some(i) => Some(i + 1),
            None => None,
        }
    }
}

/// The kinds after attaching a handler of `kind`: appended unless present.
pub open spec fn attached(kinds: Seq<Seq<char>>, kind: Seq<char>) -> Seq<Seq<char>> {
    if kinds.contains(kind) {
        kinds
    } else {
        kinds.push(kind)
    }
}

/// The kinds after detaching `kind`: its first occurrence removed, if any.
pub open spec fn detached(kinds: Seq<Seq<char>>, kind: Seq<char>) -> Seq<Seq<char>> {
    match first_index(kinds, kind) {
        Some(i) => kinds.remove(i),
        None => kinds,
    }
}

/// `r` as an index into a stack: `first_index` in machine form.
pub open spec fn index_result(r: Option<int>) -> Option<usize> {
    match r {
        Some(i) => Some(i as usize),
        None => None,
    }
}

/// One handler's turn during traversal: its kind, the message it was given
/// and what it answered.
pub struct Visit {
    pub kind: Seq<char>,
    pub input: Seq<char>,
    pub outcome: Result<Seq<char>, Seq<char>>,
}

/// `visits` is how a traversal of a stack with `kinds` started on `message`
/// begins: handlers are taken from the last attached towards the first, and
/// each is given what the one before answered, which was a success.
pub open spec fn is_prefix_run(kinds: Seq<Seq<char>>, message: Seq<char>, visits: Seq<Visit>) -> bool {
    &&& visits.len() <= kinds.len()
    &&& forall|i: int| 0 <= i < visits.len() ==> #[trigger] visits[i].kind == kinds[kinds.len() - 1 - i]
    &&& visits.len() > 0 ==> visits[0].input == message
    &&& forall|i: int|
        0 < i < visits.len() ==> (#[trigger] visits[i - 1]).outcome is Ok && visits[i].input
            == visits[i - 1].outcome->Ok_0
}

/// `visits` is a whole traversal of a stack with `kinds` started on
/// `message`: it stops before the first attached handler only right after a
/// failure.
pub open spec fn is_run(kinds: Seq<Seq<char>>, message: Seq<char>, visits: Seq<Visit>) -> bool {
    &&& is_prefix_run(kinds, message, visits)
    &&& visits.len() < kinds.len() ==> visits.len() > 0 && visits.last().outcome is Err
}

/// Each visit's answer is one that the handler visited may give: the
/// handlers are taken from the last towards the first, as in a traversal.
pub open spec fn answered_by<M: Middleware>(handlers: Seq<M>, visits: Seq<Visit>) -> bool {
    forall|t: int|
        0 <= t < visits.len() ==> #[trigger] handlers[handlers.len() - 1 - t].answers(
            visits[t].input,
            visits[t].outcome,
        )
}

/// The outcome of a traversal: the last answer, or the message itself when
/// no handler was visited.
pub open spec fn run_result(message: Seq<char>, visits: Seq<Visit>) -> Result<Seq<char>, Seq<char>> {
    if visits.len() == 0 {
        Ok(message)
    } else {
        visits.last().outcome
    }
}

/// What a traversal comes to, given the answers in the order the handlers
/// were visited. Each success becomes the message passed on, and the first
/// failure is the outcome. When there is no failure, the outcome is the last
/// message, or `message` itself when there are no answers.
pub open spec fn settled(message: Seq<char>, answers: Seq<Result<Seq<char>, Seq<char>>>) -> Result<
    Seq<char>,
    Seq<char>,
>
    decreases answers.len(),
{
    if answers.len() == 0 {
        Ok(message)
    } else {
        match answers[0] {
            Ok(next) => settled(next, answers.drop_first()),
            Err(e) => Err(e),
        }
    }
}

/// The outcome of a traversal, given the answers of the handlers visited:
/// the first failure, else the last message passed on, else `message`.
pub fn settle(message: &str, answers: &Vec<Result<String, String>>) -> (r: Result<String, String>)
    ensures
        result_view(r) == settled(message@, answers@.map_values(|a: Result<String, String>| result_view(a))),
{
    let ghost views = answers@.map_values(|a: Result<String, String>| result_view(a));
    let mut current: String = message.to_owned();
    let n = answers.len();
    let mut i: usize = 0;
    assert(views.subrange(0, n as int) =~= views);
    while i < n
        invariant
            n == answers.len(),
            views == answers@.map_values(|a: Result<String, String>| result_view(a)),
            i <= n,
            settled(message@, views) == settled(current@, views.subrange(i as int, n as int)),
        decreases n - i,
    {
        let ghost rest = views.subrange(i as int, n as int);
        assert(rest[0] == result_view(answers@[i as int]));
        assert(rest.drop_first() =~= views.subrange(i + 1, n as int));
        match &answers[i] {
            Ok(next) => {
                current = next.clone();
            },
            Err(e) => {
                return Err(e.clone());
            },
        }
        i = i + 1;
    }
    assert(views.subrange(n as int, n as int) =~= Seq::<Result<Seq<char>, Seq<char>>>::empty());
    Ok(current)
}

/// Where every answer but the last is a success, the answers settle on the
/// last one, or on `message` when there are none.
proof fn lemma_settled_run(message: Seq<char>, answers: Seq<Result<Seq<char>, Seq<char>>>)
    requires
        forall|t: int| 0 <= t < answers.len() - 1 ==> answers[t] is Ok,
    ensures
        settled(message, answers) == (if answers.len() == 0 {
            Ok(message)
        } else {
            answers.last()
        }),
    decreases answers.len(),
{
    if answers.len() == 1 {
        reveal_with_fuel(settled, 2);
        assert(answers.drop_first().len() == 0);
    } else if answers.len() > 1 {
        let rest = answers.drop_first();
        assert(answers[0] is Ok);
        assert forall|t: int| 0 <= t < rest.len() - 1 implies rest[t] is Ok by {
            assert(rest[t] == answers[t + 1]);
        }
        lemma_settled_run(answers[0]->Ok_0, rest);
        assert(rest.last() == answers.last());
    }
}

/// A `Result` of strings seen as character sequences.
pub open spec fn result_view(r: Result<String, String>) -> Result<Seq<char>, Seq<char>> {
    match r {
        Ok(m) => Ok(m@),
        Err(e) => Err(e@),
    }
}

/// An ordered stack of handlers. Each handler's kind is read once, when it
/// enters the stack, and kept beside it.
pub struct Stack<M: Middleware> {
    middlewares: Vec<M>,
    kinds: Vec<String>,
}

impl<M: Middleware> View for Stack<M> {
    type V = Seq<Seq<char>>;

    /// The kinds of the handlers, in the order they were attached.
    closed spec fn view(&self) -> Seq<Seq<char>> {
        self.kinds@.map_values(|k: String| k@)
    }
}

impl<M: Middleware> Stack<M> {
    /// The handlers, in the order they were attached.
    pub closed spec fn members(&self) -> Seq<M> {
        self.middlewares@
    }

    /// Each stored kind is one that its handler may have.
    pub open spec fn kinds_match(&self) -> bool {
        forall|i: int| 0 <= i < self@.len() ==> #[trigger] self.members()[i].has_kind(self@[i])
    }

    /// Every handler has its kind beside it.
    pub closed spec fn wf(&self) -> bool {
        self.middlewares.len() == self.kinds.len()
    }

    /// The number of handlers in the stack.
    pub fn len(&self) -> (r: usize)
        requires
            self.wf(),
        ensures
            r == self@.len(),
            r == self.members().len(),
    {
        self.kinds.len()
    }

    /// The index of the first handler of `kind`, if there is one.
    pub fn position(&self, kind: &String) -> (r: Option<usize>)
        requires
            self.wf(),
        ensures
            r == index_result(first_index(self@, kind@)),
    {
        let n = self.kinds.len();
        let mut i: usize = 0;
        while i < n
            invariant
                n == self.kinds.len(),
                i <= n,
                forall|j: int| 0 <= j < i ==> self@[j] != kind@,
            decreases n - i,
        {
            if self.kinds[i] == *kind {
                proof {
                    lemma_first_index_found(self@, kind@, i as int);
                }
                return Some(i);
            }
            i = i + 1;
        }
        proof {
            lemma_first_index_absent(self@, kind@);
        }
        None
    }

    /// A stack seeded with `middlewares` in the given order, or an empty one.
    /// The seed is taken as it is: it is not checked for repeated kinds.
    pub fn new(middlewares: Option<Vec<M>>) -> (r: Self)
        ensures
            r.wf(),
            match middlewares {
                Some(v) => r.members() == v@ && r@.len() == v@.len(),
                None => r.members().len() == 0 && r@.len() == 0,
            },
            r.kinds_match(),
    {
        let middlewares: Vec<M> = match middlewares {
            Some(v) => v,
            None => Vec::new(),
        };
        let n = middlewares.len();
        let mut kinds: Vec<String> = Vec::new();
        let mut i: usize = 0;
        while i < n
            invariant
                n == middlewares.len(),
                i <= n,
                kinds.len() == i,
                forall|j: int| 0 <= j < i ==> #[trigger] middlewares@[j].has_kind(kinds@[j]@),
            decreases n - i,
        {
            kinds.push(middlewares[i].kind());
            i = i + 1;
        }
        let r = Stack { middlewares, kinds };
        assert forall|j: int| 0 <= j < r@.len() implies #[trigger] r.members()[j].has_kind(r@[j]) by {
            assert(r@[j] == r.kinds@[j]@);
        }
        r
    }

    /// Attaches `middleware` under the given kind: appended at the end
    /// unless a handler of that kind is already in the stack, in which case
    /// nothing changes.
    pub fn attach_as(&mut self, kind: String, middleware: M)
        requires
            old(self).wf(),
        ensures
            final(self).wf(),
            final(self)@ == attached(old(self)@, kind@),
            old(self)@.contains(kind@) ==> final(self).members() == old(self).members(),
            !old(self)@.contains(kind@) ==> final(self).members() == old(self).members().push(
                middleware,
            ),
            distinct(old(self)@) ==> distinct(final(self)@),
            old(self).kinds_match() && middleware.has_kind(kind@) ==> final(self).kinds_match(),
    {
        proof {
            lemma_attached_distinct(self@, kind@);
        }
        match self.position(&kind) {
            Some(_) => {
                proof {
                    lemma_first_index_some(self@, kind@);
                }
            },
            None => {
                proof {
                    lemma_first_index_none(self@, kind@);
                }
                let ghost before = self@;
                self.middlewares.push(middleware);
                self.kinds.push(kind);
                assert(self@ =~= before.push(kind@));
                assert(self.members() == old(self).members().push(middleware));
            },
        }
    }

    /// Attaches `middleware`, unless a handler of its kind is already in the
    /// stack. Returns the stack, so that calls can be chained.
    pub fn attach(&mut self, middleware: M) -> (r: &mut Self)
        requires
            old(self).wf(),
        ensures
            r.wf(),
            exists|kind: Seq<char>|
                middleware.has_kind(kind) && r@ == attached(old(self)@, kind) && r.members() == (if old(self)@.contains(kind) {
                    old(self).members()
                } else {
                    old(self).members().push(middleware)
                }),
            distinct(old(self)@) ==> distinct(r@),
            old(self).kinds_match() ==> r.kinds_match(),
            *final(self) == *final(r),
    {
        let kind = middleware.kind();
        self.attach_as(kind, middleware);
        assert(self@ == attached(old(self)@, kind@));
        self
    }

    /// The index of the handler of the same kind as `middleware`, if any.
    pub fn find(&self, middleware: &M) -> (r: Option<usize>)
        requires
            self.wf(),
        ensures
            exists|kind: Seq<char>|
                middleware.has_kind(kind) && r == index_result(first_index(self@, kind)),
            match r {
                Some(i) => i < self@.len(),
                None => true,
            },
    {
        let kind = middleware.kind();
        let r = self.position(&kind);
        proof {
            lemma_first_index_some(self@, kind@);
        }
        r
    }

    /// Removes the first handler of the given kind; nothing changes when
    /// there is none.
    pub fn dettach_kind(&mut self, kind: &String)
        requires
            old(self).wf(),
        ensures
            final(self).wf(),
            final(self)@ == detached(old(self)@, kind@),
            match first_index(old(self)@, kind@) {
                Some(i) => final(self).members() == old(self).members().remove(i),
                None => final(self).members() == old(self).members(),
            },
            distinct(old(self)@) ==> distinct(final(self)@),
            old(self).kinds_match() ==> final(self).kinds_match(),
    {
        proof {
            lemma_first_index_some(self@, kind@);
            lemma_detached_distinct(self@, kind@);
        }
        match self.position(kind) {
            Some(i) => {
                let ghost before = self@;
                self.middlewares.remove(i);
                self.kinds.remove(i);
                assert(self@ =~= before.remove(i as int));
                assert(self.members() == old(self).members().remove(i as int));
                assert forall|j: int| 0 <= j < self@.len() && old(self).kinds_match() implies
                    #[trigger] self.members()[j].has_kind(self@[j]) by {
                    if j >= i {
                        assert(old(self).members()[j + 1].has_kind(old(self)@[j + 1]));
                    } else {
                        assert(old(self).members()[j].has_kind(old(self)@[j]));
                    }
                }
            },
            None => {},
        }
    }

    /// Removes the handler of the same kind as `middleware`, if there is
    /// one; `middleware` only serves as the key and is dropped. Returns the
    /// stack, so that calls can be chained.
    pub fn dettach(&mut self, middleware: M) -> (r: &mut Self)
        requires
            old(self).wf(),
        ensures
            r.wf(),
            exists|kind: Seq<char>|
                middleware.has_kind(kind) && r@ == detached(old(self)@, kind) && r.members() == (match first_index(
                    old(self)@,
                    kind,
                ) {
                    Some(i) => old(self).members().remove(i),
                    None => old(self).members(),
                }),
            distinct(old(self)@) ==> distinct(r@),
            old(self).kinds_match() ==> r.kinds_match(),
            *final(self) == *final(r),
    {
        let kind = middleware.kind();
        self.dettach_kind(&kind);
        assert(self@ == detached(old(self)@, kind@));
        self
    }

    /// Passes `message` through the handlers, from the last attached to the
    /// first, each one receiving what the previous one answered. The first
    /// failure stops the traversal and is returned as it is; otherwise the
    /// last answer is returned, or `message` itself when the stack is empty.
    pub fn handle(&self, message: &str) -> (r: Result<String, String>)
        requires
            self.wf(),
        ensures
            exists|visits: Seq<Visit>|
                is_run(self@, message@, visits) && result_view(r) == run_result(message@, visits)
                    && answered_by(self.members(), visits),
            self@.len() == 0 ==> result_view(r) == Ok::<Seq<char>, Seq<char>>(message@),
    {
        let n = self.middlewares.len();
        let mut current: String = message.to_owned();
        let mut answers: Vec<Result<String, String>> = Vec::new();
        let mut stopped = false;
        let ghost mut visits: Seq<Visit> = Seq::empty();
        let mut i: usize = n;
        while i > 0 && !stopped
            invariant
                self.wf(),
                n == self@.len(),
                i <= n,
                visits.len() == n - i,
                answers.len() == visits.len(),
                forall|t: int| 0 <= t < visits.len() ==> result_view(#[trigger] answers@[t]) == visits[t].outcome,
                is_prefix_run(self@, message@, visits),
                answered_by(self.members(), visits),
                stopped ==> visits.len() > 0 && visits.last().outcome is Err,
                !stopped && visits.len() == 0 ==> current@ == message@,
                !stopped && visits.len() > 0 ==> visits.last().outcome == Ok::<Seq<char>, Seq<char>>(current@),
            decreases i,
        {
            let idx = i - 1;
            let answer = self.middlewares[idx].handle(current.as_str());
            let ghost step = Visit { kind: self@[idx as int], input: current@, outcome: result_view(answer) };
            let ghost prev = visits;
            let ghost handlers = self.members();
            proof {
                visits = visits.push(step);
                assert forall|j: int| 0 < j < visits.len() implies (#[trigger] visits[j - 1]).outcome is Ok
                    && visits[j].input == visits[j - 1].outcome->Ok_0 by {
                    if j < prev.len() {
                        assert(visits[j - 1] == prev[j - 1]);
                        assert(visits[j] == prev[j]);
                    }
                }
                assert forall|t: int| 0 <= t < visits.len() implies #[trigger] handlers[handlers.len() - 1 - t].answers(
                    visits[t].input,
                    visits[t].outcome,
                ) by {
                    if t < prev.len() {
                        assert(visits[t] == prev[t]);
                    }
                }
            }
            match &answer {
                Ok(next) => {
                    current = next.clone();
                },
                Err(_) => {
                    stopped = true;
                },
            }
            let ghost before = answers@;
            answers.push(answer);
            assert forall|t: int| 0 <= t < visits.len() implies result_view(#[trigger] answers@[t])
                == visits[t].outcome by {
                if t < before.len() {
                    assert(answers@[t] == before[t]);
                }
            }
            i = idx;
        }
        assert(is_run(self@, message@, visits));
        let r = settle(message, &answers);
        proof {
            let views = answers@.map_values(|a: Result<String, String>| result_view(a));
            assert forall|t: int| 0 <= t < views.len() implies views[t] == visits[t].outcome by {
                assert(views[t] == result_view(answers@[t]));
            }
            assert forall|t: int| 0 <= t < views.len() - 1 implies views[t] is Ok by {
                assert(visits[(t + 1) - 1].outcome is Ok);
            }
            lemma_settled_run(message@, views);
            if visits.len() > 0 {
                assert(views.last() == visits.last().outcome);
            }
            assert(result_view(r) == run_result(message@, visits));
            assert(answered_by(self.members(), visits));
        }
        r
    }
}

/// Attaching a kind twice in a row leaves the stack as attaching it once.
pub proof fn lemma_attach_idempotent(kinds: Seq<Seq<char>>, kind: Seq<char>)
    ensures
        attached(attached(kinds, kind), kind) == attached(kinds, kind),
        attached(attached(kinds, kind), kind).len() == attached(kinds, kind).len(),
{
    if !kinds.contains(kind) {
        assert(kinds.push(kind)[kinds.len() as int] == kind);
    }
}

/// On a stack without repeated kinds, detaching a kind that was just
/// attached gives back the stack as it was before, and detaching it a
/// second time changes nothing.
pub proof fn lemma_detach_after_attach(kinds: Seq<Seq<char>>, kind: Seq<char>)
    requires
        distinct(kinds),
        !kinds.contains(kind),
    ensures
        detached(attached(kinds, kind), kind) == kinds,
        detached(detached(attached(kinds, kind), kind), kind) == detached(attached(kinds, kind), kind),
{
    let t = kinds.push(kind);
    assert forall|j: int| 0 <= j < kinds.len() implies t[j] != kind by {
        assert(t[j] == kinds[j]);
    }
    lemma_first_index_found(t, kind, kinds.len() as int);
    assert(t.remove(kinds.len() as int) =~= kinds);
    lemma_first_index_none(kinds, kind);
}

/// On a stack without repeated kinds, a detach removes one entry when the
/// kind is present, and detaching the same kind again changes nothing.
pub proof fn lemma_detach_twice(kinds: Seq<Seq<char>>, kind: Seq<char>)
    requires
        distinct(kinds),
    ensures
        detached(detached(kinds, kind), kind) == detached(kinds, kind),
        kinds.contains(kind) ==> detached(kinds, kind).len() == kinds.len() - 1,
{
    lemma_first_index_some(kinds, kind);
    lemma_first_index_none(kinds, kind);
    if let Some(i) = first_index(kinds, kind) {
        let t = kinds.remove(i);
        assert forall|j: int| 0 <= j < t.len() implies t[j] != kind by {
            if j < i {
                assert(t[j] == kinds[j]);
            } else {
                assert(t[j] == kinds[j + 1]);
            }
        }
        lemma_first_index_absent(t, kind);
    }
}

/// In a traversal, a handler attached later is visited before one attached
/// earlier: when the earlier one was visited, so was the later one, at a
/// smaller step.
pub proof fn lemma_reverse_order(
    kinds: Seq<Seq<char>>,
    message: Seq<char>,
    visits: Seq<Visit>,
    earlier: int,
    later: int,
)
    requires
        is_run(kinds, message, visits),
        0 <= earlier < later < kinds.len(),
        kinds.len() - 1 - earlier < visits.len(),
    ensures
        kinds.len() - 1 - later < kinds.len() - 1 - earlier,
        visits[kinds.len() - 1 - later].kind == kinds[later],
        visits[kinds.len() - 1 - earlier].kind == kinds[earlier],
{
    assert(visits[kinds.len() - 1 - later].kind == kinds[kinds.len() - 1 - (kinds.len() - 1 - later)]);
    assert(visits[kinds.len() - 1 - earlier].kind == kinds[kinds.len() - 1 - (kinds.len() - 1
        - earlier)]);
}

/// A failure ends a traversal: no handler is visited after it, and the
/// traversal's outcome is that failure.
pub proof fn lemma_short_circuit(
    kinds: Seq<Seq<char>>,
    message: Seq<char>,
    visits: Seq<Visit>,
    step: int,
)
    requires
        is_run(kinds, message, visits),
        0 <= step < visits.len(),
        visits[step].outcome is Err,
    ensures
        step == visits.len() - 1,
        run_result(message, visits) == visits[step].outcome,
{
    if step < visits.len() - 1 {
        assert(visits[step + 1 - 1].outcome is Ok);
    }
}

proof fn lemma_first_index_found(kinds: Seq<Seq<char>>, kind: Seq<char>, i: int)
    requires
        0 <= i < kinds.len(),
        kinds[i] == kind,
        forall|j: int| 0 <= j < i ==> kinds[j] != kind,
    ensures
        first_index(kinds, kind) == Some(i),
    decreases kinds.len(),
{
    if i > 0 {
        let rest = kinds.drop_first();
        assert(kinds[0] != kind);
        assert forall|j: int| 0 <= j < i - 1 implies rest[j] != kind by {
            assert(rest[j] == kinds[j + 1]);
        }
        lemma_first_index_found(rest, kind, i - 1);
    }
}

proof fn lemma_first_index_absent(kinds: Seq<Seq<char>>, kind: Seq<char>)
    requires
        forall|j: int| 0 <= j < kinds.len() ==> kinds[j] != kind,
    ensures
        first_index(kinds, kind) == None::<int>,
    decreases kinds.len(),
{
    if kinds.len() > 0 {
        let rest = kinds.drop_first();
        assert forall|j: int| 0 <= j < rest.len() implies rest[j] != kind by {
            assert(rest[j] == kinds[j + 1]);
        }
        lemma_first_index_absent(rest, kind);
    }
}

proof fn lemma_first_index_some(kinds: Seq<Seq<char>>, kind: Seq<char>)
    ensures
        match first_index(kinds, kind) {
            Some(i) => 0 <= i < kinds.len() && kinds[i] == kind && forall|j: int|
                0 <= j < i ==> kinds[j] != kind,
            None => true,
        },
    decreases kinds.len(),
{
    if kinds.len() > 0 && kinds[0] != kind {
        let rest = kinds.drop_first();
        lemma_first_index_some(rest, kind);
        if let Some(i) = first_index(rest, kind) {
            assert(kinds[i + 1] == rest[i]);
            assert forall|j: int| 0 <= j < i + 1 implies kinds[j] != kind by {
                if j > 0 {
                    assert(kinds[j] == rest[j - 1]);
                }
            }
        }
    }
}

proof fn lemma_first_index_none(kinds: Seq<Seq<char>>, kind: Seq<char>)
    ensures
        first_index(kinds, kind) is None <==> !kinds.contains(kind),
    decreases kinds.len(),
{
    lemma_first_index_some(kinds, kind);
    if kinds.contains(kind) {
        let j = choose|j: int| 0 <= j < kinds.len() && kinds[j] == kind;
        let i = choose|i: int| 0 <= i <= j && kinds[i] == kind && forall|l: int| 0 <= l < i ==> kinds[l] != kind;
        assert(exists|i: int| 0 <= i <= j && kinds[i] == kind && forall|l: int| 0 <= l < i ==> kinds[l] != kind) by {
            lemma_least_index(kinds, kind, j);
        }
        lemma_first_index_found(kinds, kind, i);
    } else if first_index(kinds, kind) is Some {
        let i = first_index(kinds, kind)->Some_0;
        assert(kinds.contains(kind)) by {
            assert(kinds[i] == kind);
        }
    }
}

proof fn lemma_least_index(kinds: Seq<Seq<char>>, kind: Seq<char>, j: int)
    requires
        0 <= j < kinds.len(),
        kinds[j] == kind,
    ensures
        exists|i: int| 0 <= i <= j && kinds[i] == kind && forall|l: int| 0 <= l < i ==> kinds[l] != kind,
    decreases j,
{
    if exists|l: int| 0 <= l < j && kinds[l] == kind {
        let l = choose|l: int| 0 <= l < j && kinds[l] == kind;
        lemma_least_index(kinds, kind, l);
    } else {
        assert(forall|l: int| 0 <= l < j ==> kinds[l] != kind);
    }
}

proof fn lemma_attached_distinct(kinds: Seq<Seq<char>>, kind: Seq<char>)
    ensures
        distinct(kinds) ==> distinct(attached(kinds, kind)),
{
    if distinct(kinds) && !kinds.contains(kind) {
        let t = kinds.push(kind);
        assert forall|i: int, j: int| 0 <= i < j < t.len() implies t[i] != t[j] by {
            if j == kinds.len() {
                assert(t[i] == kinds[i]);
            }
        }
    }
}

proof fn lemma_detached_distinct(kinds: Seq<Seq<char>>, kind: Seq<char>)
    ensures
        distinct(kinds) ==> distinct(detached(kinds, kind)),
{
    lemma_first_index_some(kinds, kind);
    if distinct(kinds) && first_index(kinds, kind) is Some {
        let k = first_index(kinds, kind)->Some_0;
        let t = kinds.remove(k);
        assert forall|i: int, j: int| 0 <= i < j < t.len() implies t[i] != t[j] by {
            let a = if i < k { i } else { i + 1 };
            let b = if j < k { j } else { j + 1 };
            assert(t[i] == kinds[a]);
            assert(t[j] == kinds[b]);
        }
    }
}

} // verus!
