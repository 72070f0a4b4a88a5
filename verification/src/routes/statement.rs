//! Statements for the database, and the values for their places.
use vstd::prelude::*;

use crate::routes::{like_escape, like_escaped};
use crate::ts::title::text_opt;

verus! {

/// A value for a place in a statement.
#[derive(Debug)]
pub enum Bind {
    Int(i64),
    Text(String),
}

pub ghost enum BindModel {
    Int(i64),
    Text(Seq<char>),
}

impl View for Bind {
    type V = BindModel;

    open spec fn view(&self) -> BindModel {
        match *self {
            Bind::Int(n) => BindModel::Int(n),
            Bind::Text(s) => BindModel::Text(s@),
        }
    }
}

pub open spec fn bind_models(binds: Seq<Bind>) -> Seq<BindModel> {
    binds.map_values(|b: Bind| b@)
}

pub open spec fn bind_opt(bind: Option<Bind>) -> Option<BindModel> {
    match bind {
        Some(b) => Some(b@),
        None => None,
    }
}

/// A condition, and the value for its place where it has one.
pub ghost struct Condition {
    pub sql: Seq<char>,
    pub bind: Option<BindModel>,
}

/// The conditions, joined.
pub open spec fn where_text(conditions: Seq<Condition>) -> Seq<char>
    decreases conditions.len(),
{
    if conditions.len() == 0 {
        Seq::empty()
    } else if conditions.len() == 1 {
        "WHERE "@ + conditions.last().sql
    } else {
        where_text(conditions.drop_last()) + " AND "@ + conditions.last().sql
    }
}

/// The values for the places of the conditions, in order.
pub open spec fn where_binds(conditions: Seq<Condition>) -> Seq<BindModel>
    decreases conditions.len(),
{
    if conditions.len() == 0 {
        Seq::empty()
    } else {
        match conditions.last().bind {
            Some(b) => where_binds(conditions.drop_last()).push(b),
            None => where_binds(conditions.drop_last()),
        }
    }
}

/// A pattern that a text matches where it holds another.
pub open spec fn holding(s: Seq<char>) -> Seq<char> {
    "%"@ + like_escaped(s) + "%"@
}

pub fn write_holding(s: &str) -> (p: String)
    ensures
        p@ == holding(s@),
{
    let mut p = "%".to_string();
    p.append(like_escape(s).as_str());
    p.append("%");
    p
}

/// The conditions of a statement, while they are collected.
pub struct WhereClause {
    sql: String,
    binds: Vec<Bind>,
    conditions: Ghost<Seq<Condition>>,
}

impl WhereClause {
    pub closed spec fn conditions(self) -> Seq<Condition> {
        self.conditions@
    }

    pub closed spec fn wf(self) -> bool {
        &&& self.sql@ == where_text(self.conditions@)
        &&& bind_models(self.binds@) == where_binds(self.conditions@)
        &&& self.sql@.len() == 0 <==> self.conditions@.len() == 0
    }

    pub fn new() -> (w: Self)
        ensures
            w.wf(),
            w.conditions() == Seq::<Condition>::empty(),
    {
        let w = WhereClause { sql: String::new(), binds: Vec::new(), conditions: Ghost(Seq::empty()) };
        assert(bind_models(w.binds@) =~= Seq::empty());
        w
    }

    /// Adds a condition, and the value for its place where it has one.
    pub fn push(&mut self, sql: &str, bind: Option<Bind>)
        requires
            old(self).wf(),
        ensures
            final(self).wf(),
            final(self).conditions() == old(self).conditions().push(
                Condition { sql: sql@, bind: bind_opt(bind) },
            ),
    {
        let ghost condition = Condition { sql: sql@, bind: bind_opt(bind) };
        let ghost before = self.conditions@;
        if self.sql.as_str().is_empty() {
            self.sql.append("WHERE ");
        } else {
            self.sql.append(" AND ");
        }
        self.sql.append(sql);
        proof {
            reveal_strlit("WHERE ");
            reveal_strlit(" AND ");
            assert(before.push(condition).drop_last() =~= before);
            assert(self.sql@ =~= where_text(before.push(condition)));
        }
        if let Some(b) = bind {
            let ghost held = self.binds@;
            self.binds.push(b);
            assert(bind_models(self.binds@) =~= bind_models(held).push(b@));
        }
        self.conditions = Ghost(before.push(condition));
    }

    /// Adds a condition on a number, where there is one.
    pub fn push_int(&mut self, sql: &str, n: Option<i64>)
        requires
            old(self).wf(),
        ensures
            final(self).wf(),
            final(self).conditions() == old(self).conditions() + asked(sql@, int_bind(n)),
    {
        if let Some(v) = n {
            self.push(sql, Some(Bind::Int(v)));
        }
        assert(self.conditions() =~= old(self).conditions() + asked(sql@, int_bind(n)));
    }

    /// Adds a condition on a text, where there is one.
    pub fn push_text(&mut self, sql: &str, s: Option<String>)
        requires
            old(self).wf(),
        ensures
            final(self).wf(),
            final(self).conditions() == old(self).conditions() + asked(sql@, text_bind(text_opt(s))),
    {
        let ghost bind = text_bind(text_opt(s));
        if let Some(t) = s {
            self.push(sql, Some(Bind::Text(t)));
        }
        assert(self.conditions() =~= old(self).conditions() + asked(sql@, bind));
    }

    /// The conditions, joined.
    pub fn sql(&self) -> (s: &str)
        requires
            self.wf(),
        ensures
            s@ == where_text(self.conditions()),
    {
        self.sql.as_str()
    }

    /// The values for their places, in order.
    pub fn binds(&self) -> (binds: Vec<Bind>)
        requires
            self.wf(),
        ensures
            bind_models(binds@) == where_binds(self.conditions()),
    {
        let mut binds: Vec<Bind> = Vec::new();
        let mut i: usize = 0;
        assert(bind_models(binds@) =~= bind_models(self.binds@).take(0));
        while i < self.binds.len()
            invariant
                i <= self.binds@.len(),
                bind_models(binds@) == bind_models(self.binds@).take(i as int),
            decreases self.binds@.len() - i,
        {
            let copy = match &self.binds[i] {
                Bind::Int(n) => Bind::Int(*n),
                Bind::Text(s) => Bind::Text(s.clone()),
            };
            let ghost before = binds@;
            binds.push(copy);
            assert(bind_models(binds@) =~= bind_models(before).push(copy@));
            assert(bind_models(self.binds@).take(i + 1) =~= bind_models(self.binds@).take(
                i as int,
            ).push(copy@));
            i = i + 1;
        }
        assert(bind_models(self.binds@).take(i as int) =~= bind_models(self.binds@));
        binds
    }
}

/// A condition where there is something to ask for.
pub open spec fn asked(sql: Seq<char>, bind: Option<BindModel>) -> Seq<Condition> {
    match bind {
        Some(b) => seq![Condition { sql, bind: Some(b) }],
        None => Seq::empty(),
    }
}

pub open spec fn int_bind(n: Option<i64>) -> Option<BindModel> {
    match n {
        Some(v) => Some(BindModel::Int(v)),
        None => None,
    }
}

pub open spec fn text_bind(s: Option<Seq<char>>) -> Option<BindModel> {
    match s {
        Some(t) => Some(BindModel::Text(t)),
        None => None,
    }
}

/// The places for values among the first `n` characters of a statement.
pub open spec fn places_among(s: Seq<char>, n: int) -> int
    decreases n,
{
    if n <= 0 {
        0
    } else {
        places_among(s, n - 1) + if s[n - 1] == '?' {
            1int
        } else {
            0
        }
    }
}

/// The places for values in a statement.
pub open spec fn places(s: Seq<char>) -> int {
    places_among(s, s.len() as int)
}

proof fn lemma_places_of_both(a: Seq<char>, b: Seq<char>, n: int)
    requires
        0 <= n <= b.len(),
    ensures
        places_among(a + b, a.len() + n) == places(a) + places_among(b, n),
    decreases n,
{
    if n > 0 {
        lemma_places_of_both(a, b, n - 1);
        assert((a + b)[a.len() + n - 1] == b[n - 1]);
    } else {
        lemma_places_of_front(a, b, a.len() as int);
    }
}

proof fn lemma_places_of_front(a: Seq<char>, b: Seq<char>, n: int)
    requires
        0 <= n <= a.len(),
    ensures
        places_among(a + b, n) == places_among(a, n),
    decreases n,
{
    if n > 0 {
        lemma_places_of_front(a, b, n - 1);
    }
}

pub proof fn lemma_places_add(a: Seq<char>, b: Seq<char>)
    ensures
        places(a + b) == places(a) + places(b),
{
    lemma_places_of_both(a, b, b.len() as int);
}

proof fn lemma_places_where()
    ensures
        places("WHERE "@) == 0,
{
    reveal_strlit("WHERE ");
    reveal_with_fuel(places_among, 8);
    assert("WHERE "@.len() == 6);
    assert(places_among("WHERE "@, 6) == 0);
}

proof fn lemma_places_and()
    ensures
        places(" AND "@) == 0,
{
    reveal_strlit(" AND ");
    reveal_with_fuel(places_among, 7);
    assert(" AND "@.len() == 5);
    assert(places_among(" AND "@, 5) == 0);
}

/// Whether a condition has as many places as values: one or none.
pub open spec fn places_agree(c: Condition) -> bool {
    places(c.sql) == if c.bind is Some {
        1int
    } else {
        0
    }
}

/// Joined conditions have as many places as there are values for them.
pub proof fn joined_places_agree(conditions: Seq<Condition>)
    requires
        forall|i: int| 0 <= i < conditions.len() ==> places_agree(#[trigger] conditions[i]),
    ensures
        places(where_text(conditions)) == where_binds(conditions).len(),
    decreases conditions.len(),
{
    if conditions.len() > 0 {
        let front = conditions.drop_last();
        assert(forall|i: int| 0 <= i < front.len() ==> #[trigger] front[i] == conditions[i]);
        joined_places_agree(front);
        assert(places_agree(conditions.last()));
        lemma_places_where();
        lemma_places_and();
        if conditions.len() == 1 {
            lemma_places_add("WHERE "@, conditions.last().sql);
        } else {
            lemma_places_add(where_text(front) + " AND "@, conditions.last().sql);
            lemma_places_add(where_text(front), " AND "@);
        }
    }
}

} // verus!
