//! The embedding engine: a static word-vector table, averaging of token
//! vectors into one fixed-length vector, and cosine similarity, all over
//! fixed-point scalars.
use vstd::prelude::*;
use crate::fixedpoint::{
    bounded_entries, bounded_fixed_of, div_trunc, dot_of, from_ints, is_isqrt, isqrt,
    lemma_cauchy_schwarz, norm_sq, parse_fixed, sqrt_floor, tdiv, MAX_DIM, SCALE, VALUE_BOUND,
};
use crate::text::{fields_of, filter_text, kept, lower_of, lowercase, split_chars};

verus! {

/// Why enabling the engine failed: the word-vector data did not parse.
#[derive(Clone, Copy, Debug, PartialEq, Eq, Structural)]
pub enum EmbedError {
    Malformed,
}

pub open spec fn to_ints(v: Seq<i64>) -> Seq<int> {
    v.map_values(|x: i64| x as int)
}

/// The values of one row of the table file: every field after the token,
/// each a bounded fixed-point literal.
pub open spec fn vals_of(fs: Seq<Seq<char>>) -> Option<Seq<int>>
    decreases fs.len(),
{
    if fs.len() == 0 {
        Some(Seq::empty())
    } else {
        match bounded_fixed_of(fs.first()) {
            Some(v) => match vals_of(fs.drop_first()) {
                Some(vs) => Some(Seq::<int>::empty().push(v) + vs),
                None => None,
            },
            None => None,
        }
    }
}

/// One line of the table file: a token and at least one value.
pub open spec fn row_of(line: Seq<char>) -> Option<(Seq<char>, Seq<int>)> {
    let fs = fields_of(line, ' ');
    if fs.len() >= 2 {
        match vals_of(fs.drop_first()) {
            Some(vs) => Some((fs.first(), vs)),
            None => None,
        }
    } else {
        None
    }
}

pub open spec fn rows_of(lines: Seq<Seq<char>>) -> Option<Seq<(Seq<char>, Seq<int>)>>
    decreases lines.len(),
{
    if lines.len() == 0 {
        Some(Seq::empty())
    } else {
        match row_of(lines.first()) {
            Some(r) => match rows_of(lines.drop_first()) {
                Some(rs) => Some(Seq::<(Seq<char>, Seq<int>)>::empty().push(r) + rs),
                None => None,
            },
            None => None,
        }
    }
}

/// At least one row, all of one dimensionality the engine can hold.
pub open spec fn consistent(rows: Seq<(Seq<char>, Seq<int>)>) -> bool {
    &&& rows.len() > 0
    &&& rows[0].1.len() <= MAX_DIM
    &&& forall|i: int| 0 <= i < rows.len() ==> (#[trigger] rows[i]).1.len() == rows[0].1.len()
}

/// What the word-vector file means: its rows, provided every line parses
/// and the dimensions agree.
pub open spec fn table_of(text: Seq<char>) -> Option<Seq<(Seq<char>, Seq<int>)>> {
    match rows_of(fields_of(text, '\n')) {
        Some(rows) => if consistent(rows) {
            Some(rows)
        } else {
            None
        },
        None => None,
    }
}

/// The vector stored for the first row whose token is `tok`.
pub open spec fn row_for(t: Seq<(Seq<char>, Seq<int>)>, tok: Seq<char>) -> Option<Seq<int>>
    decreases t.len(),
{
    if t.len() == 0 {
        None
    } else if t.first().0 == tok {
        Some(t.first().1)
    } else {
        row_for(t.drop_first(), tok)
    }
}

pub open spec fn zero_seq(n: nat) -> Seq<int> {
    Seq::new(n, |i: int| 0)
}

pub open spec fn seq_add(a: Seq<int>, b: Seq<int>) -> Seq<int> {
    Seq::new(a.len(), |i: int| a[i] + b[i])
}

/// How many tokens have a row in the table.
pub open spec fn matched_count(t: Seq<(Seq<char>, Seq<int>)>, toks: Seq<Seq<char>>) -> int
    decreases toks.len(),
{
    if toks.len() == 0 {
        0
    } else {
        matched_count(t, toks.drop_last()) + (if row_for(t, toks.last()).is_some() {
            1int
        } else {
            0int
        })
    }
}

/// The elementwise sum of the vectors of all matched tokens.
pub open spec fn matched_sum(
    t: Seq<(Seq<char>, Seq<int>)>,
    toks: Seq<Seq<char>>,
    dims: nat,
) -> Seq<int>
    decreases toks.len(),
{
    if toks.len() == 0 {
        zero_seq(dims)
    } else {
        let rest = matched_sum(t, toks.drop_last(), dims);
        match row_for(t, toks.last()) {
            Some(v) => seq_add(rest, v),
            None => rest,
        }
    }
}

pub proof fn lemma_matched_sum_len(
    t: Seq<(Seq<char>, Seq<int>)>,
    toks: Seq<Seq<char>>,
    dims: nat,
)
    ensures
        matched_sum(t, toks, dims).len() == dims,
    decreases toks.len(),
{
    if toks.len() > 0 {
        lemma_matched_sum_len(t, toks.drop_last(), dims);
    }
}

/// The average vector of a token list: the matched sum divided by the
/// matched count, and the zero vector when nothing matched.
pub open spec fn average_of(
    t: Seq<(Seq<char>, Seq<int>)>,
    dims: nat,
    toks: Seq<Seq<char>>,
) -> Seq<int> {
    let c = matched_count(t, toks);
    if c == 0 {
        zero_seq(dims)
    } else {
        Seq::new(dims, |i: int| tdiv(matched_sum(t, toks, dims)[i], c))
    }
}

/// The tokens of a text: strip to alphabetic characters and blanks,
/// lowercase, split on blanks.
pub open spec fn tokens_of(s: Seq<char>) -> Seq<Seq<char>> {
    fields_of(lower_of(kept(s)), ' ')
}

/// An input none of whose tokens the table knows averages to the zero
/// vector of the engine's dimensionality; so does an empty input.
pub proof fn lemma_unmatched_average_is_zero(
    t: Seq<(Seq<char>, Seq<int>)>,
    dims: nat,
    toks: Seq<Seq<char>>,
)
    requires
        matched_count(t, toks) == 0,
    ensures
        average_of(t, dims, toks) == zero_seq(dims),
{
}

/// The elementwise sum of the average vectors of a list of phrases.
pub open spec fn phrase_sum(
    t: Seq<(Seq<char>, Seq<int>)>,
    dims: nat,
    ps: Seq<Seq<char>>,
) -> Seq<int>
    decreases ps.len(),
{
    if ps.len() == 0 {
        zero_seq(dims)
    } else {
        seq_add(phrase_sum(t, dims, ps.drop_last()), average_of(t, dims, tokens_of(ps.last())))
    }
}

pub proof fn lemma_phrase_sum_len(t: Seq<(Seq<char>, Seq<int>)>, dims: nat, ps: Seq<Seq<char>>)
    ensures
        phrase_sum(t, dims, ps).len() == dims,
    decreases ps.len(),
{
    if ps.len() > 0 {
        lemma_phrase_sum_len(t, dims, ps.drop_last());
    }
}

/// The mean of the phrases' average vectors: their sum over their number,
/// and the zero vector for no phrases at all.
pub open spec fn mean_of_phrases(
    t: Seq<(Seq<char>, Seq<int>)>,
    dims: nat,
    ps: Seq<Seq<char>>,
) -> Seq<int> {
    if ps.len() == 0 {
        zero_seq(dims)
    } else {
        Seq::new(dims, |i: int| tdiv(phrase_sum(t, dims, ps)[i], ps.len() as int))
    }
}

pub struct Embedding {
    dims: usize,
    table: Vec<(String, Vec<i64>)>,
}

impl Embedding {
    /// The table rows, abstractly: token and integer scalars, in order.
    pub closed spec fn rows(self) -> Seq<(Seq<char>, Seq<int>)> {
        self.table@.map_values(|r: (String, Vec<i64>)| (r.0@, to_ints(r.1@)))
    }

    pub closed spec fn dims_spec(self) -> nat {
        self.dims as nat
    }

    /// Every row has the engine's dimensionality and bounded scalars.
    pub closed spec fn wf(self) -> bool {
        &&& self.dims <= MAX_DIM
        &&& forall|i: int| 0 <= i < self.table@.len()
            ==> (#[trigger] self.table@[i]).1@.len() == self.dims
                && bounded_entries(self.table@[i].1@)
    }

    /// An engine with no table loaded: dimensionality zero.
    pub fn new() -> (r: Embedding)
        ensures
            r.wf(),
            r.dims_spec() == 0,
            r.rows() == Seq::<(Seq<char>, Seq<int>)>::empty(),
    {
        let r = Embedding { dims: 0, table: Vec::new() };
        proof {
            assert(r.rows() =~= Seq::<(Seq<char>, Seq<int>)>::empty());
        }
        r
    }

    pub fn dims(&self) -> (r: usize)
        ensures
            r == self.dims_spec(),
    {
        self.dims
    }

    fn parse_row(line: &str) -> (r: Option<(String, Vec<i64>)>)
        ensures
            match r {
                Some(row) => row_of(line@) == Some((row.0@, to_ints(row.1@)))
                    && bounded_entries(row.1@),
                None => row_of(line@).is_none(),
            },
    {
        let fields = split_chars(line, ' ');
        let ghost fviews = fields@.map_values(|t: String| t@);
        if fields.len() < 2 {
            return None;
        }
        let ghost tail = fviews.drop_first();
        let mut vals: Vec<i64> = Vec::new();
        let mut t: usize = 1;
        proof {
            assert(tail.skip(0) =~= tail);
            assert(vals_of(tail) == (match vals_of(tail.skip(t - 1)) {
                Some(rest) => Some(to_ints(vals@) + rest),
                None => None::<Seq<int>>,
            })) by {
                match vals_of(tail) {
                    Some(rest) => {
                        assert(to_ints(vals@) + rest =~= rest);
                    },
                    None => {
                    },
                }
            }
        }
        while t < fields.len()
            invariant
                1 <= t <= fields@.len(),
                fviews == fields@.map_values(|s: String| s@),
                fviews == fields_of(line@, ' '),
                fviews.len() >= 2,
                tail == fviews.drop_first(),
                tail.len() == fields@.len() - 1,
                bounded_entries(vals@),
                vals@.len() == t - 1,
                vals_of(tail) == (match vals_of(tail.skip(t - 1)) {
                    Some(rest) => Some(to_ints(vals@) + rest),
                    None => None::<Seq<int>>,
                }),
            decreases fields@.len() - t,
        {
            let ghost old_vals = vals@;
            let parsed = parse_fixed(fields[t].as_str());
            proof {
                assert(fviews[t as int] == fields@[t as int]@);
                assert(tail.skip(t - 1).first() == tail[t - 1]);
                assert(tail[t - 1] == fviews[t as int]);
                assert(tail.skip(t - 1).drop_first() =~= tail.skip(t as int));
            }
            match parsed {
                None => {
                    proof {
                        assert(vals_of(tail.skip(t - 1)).is_none());
                    }
                    return None;
                },
                Some(v) => {
                    vals.push(v);
                    proof {
                        assert(to_ints(vals@) =~= to_ints(old_vals).push(v as int));
                        match vals_of(tail.skip(t as int)) {
                            Some(rest2) => {
                                assert(vals_of(tail.skip(t - 1)) == Some(
                                    Seq::<int>::empty().push(v as int) + rest2,
                                ));
                                assert(to_ints(old_vals) + (Seq::<int>::empty().push(
                                    v as int,
                                ) + rest2) =~= to_ints(vals@) + rest2);
                            },
                            None => {
                                assert(vals_of(tail.skip(t - 1)).is_none());
                            },
                        }
                        assert(-VALUE_BOUND <= v <= VALUE_BOUND);
                    }
                },
            }
            t = t + 1;
        }
        proof {
            assert(tail.skip(tail.len() as int) =~= Seq::<Seq<char>>::empty());
            assert(vals_of(tail.skip(tail.len() as int)) == Some(Seq::<int>::empty()));
            assert(to_ints(vals@) + Seq::<int>::empty() =~= to_ints(vals@));
            assert(vals_of(tail) == Some(to_ints(vals@)));
            assert(fviews.first() == fields@[0]@);
        }
        let token = fields[0].clone();
        Some((token, vals))
    }

    /// Load the word-vector table from the file's text: a one-time,
    /// monotonic initialization. Malformed or inconsistent data fails the
    /// step and leaves the engine unchanged.
    pub fn get_embeddings(&mut self, text: &str) -> (r: Result<(), EmbedError>)
        ensures
            match r {
                Ok(()) => {
                    &&& table_of(text@) == Some(final(self).rows())
                    &&& final(self).wf()
                    &&& final(self).dims_spec() == final(self).rows()[0].1.len()
                },
                Err(EmbedError::Malformed) => table_of(text@).is_none() && *final(self)
                    == *old(self),
            },
    {
        let lines = split_chars(text, '\n');
        let ghost lviews = lines@.map_values(|t: String| t@);
        let mut table: Vec<(String, Vec<i64>)> = Vec::new();
        let mut i: usize = 0;
        proof {
            assert(lviews.skip(0) =~= lviews);
            assert(rows_of(lviews) == (match rows_of(lviews.skip(i as int)) {
                Some(rest) => Some(rows_abs(table@) + rest),
                None => None::<Seq<(Seq<char>, Seq<int>)>>,
            })) by {
                match rows_of(lviews) {
                    Some(rest) => {
                        assert(rows_abs(table@) =~= Seq::<(Seq<char>, Seq<int>)>::empty());
                        assert(rows_abs(table@) + rest =~= rest);
                    },
                    None => {
                    },
                }
            }
        }
        while i < lines.len()
            invariant
                0 <= i <= lines@.len(),
                lviews == lines@.map_values(|t: String| t@),
                lviews == fields_of(text@, '\n'),
                table@.len() == i,
                forall|p: int| 0 <= p < table@.len()
                    ==> bounded_entries((#[trigger] table@[p]).1@),
                rows_of(lviews) == (match rows_of(lviews.skip(i as int)) {
                    Some(rest) => Some(rows_abs(table@) + rest),
                    None => None::<Seq<(Seq<char>, Seq<int>)>>,
                }),
            decreases lines@.len() - i,
        {
            let ghost old_table = table@;
            proof {
                assert(lviews[i as int] == lines@[i as int]@);
                assert(lviews.skip(i as int).first() == lviews[i as int]);
                assert(lviews.skip(i as int).drop_first() =~= lviews.skip(i as int + 1));
            }
            match Self::parse_row(lines[i].as_str()) {
                None => {
                    proof {
                        assert(rows_of(lviews.skip(i as int)).is_none());
                    }
                    return Err(EmbedError::Malformed);
                },
                Some(row) => {
                    let ghost rec = (row.0@, to_ints(row.1@));
                    table.push(row);
                    proof {
                        assert(rows_abs(table@) =~= rows_abs(old_table).push(rec));
                        match rows_of(lviews.skip(i as int + 1)) {
                            Some(rest2) => {
                                assert(rows_of(lviews.skip(i as int)) == Some(
                                    Seq::<(Seq<char>, Seq<int>)>::empty().push(rec) + rest2,
                                ));
                                assert(rows_abs(old_table) + (Seq::<(
                                    Seq<char>,
                                    Seq<int>,
                                )>::empty().push(rec) + rest2) =~= rows_abs(table@) + rest2);
                            },
                            None => {
                            },
                        }
                    }
                },
            }
            i = i + 1;
        }
        proof {
            assert(lviews.skip(lviews.len() as int) =~= Seq::<Seq<char>>::empty());
            assert(rows_of(lviews.skip(lviews.len() as int)) == Some(Seq::<(
                Seq<char>,
                Seq<int>,
            )>::empty()));
            assert(rows_abs(table@) + Seq::<(Seq<char>, Seq<int>)>::empty() =~= rows_abs(
                table@,
            ));
            assert(rows_of(lviews) == Some(rows_abs(table@)));
        }
        if table.len() == 0 {
            proof {
                assert(rows_abs(table@).len() == 0);
                assert(!consistent(rows_abs(table@)));
            }
            return Err(EmbedError::Malformed);
        }
        let dims = table[0].1.len();
        if dims > MAX_DIM {
            proof {
                let rs = rows_abs(table@);
                assert(rs[0].1 == to_ints(table@[0].1@));
                assert(to_ints(table@[0].1@).len() == table@[0].1@.len());
                assert(!consistent(rs));
            }
            return Err(EmbedError::Malformed);
        }
        let mut p: usize = 1;
        while p < table.len()
            invariant
                1 <= p <= table@.len(),
                dims == table@[0].1@.len(),
                rows_of(fields_of(text@, '\n')) == Some(rows_abs(table@)),
                forall|q: int| 0 <= q < p ==> (#[trigger] table@[q]).1@.len() == dims,
            decreases table@.len() - p,
        {
            if table[p].1.len() != dims {
                proof {
                    let rs = rows_abs(table@);
                    assert(rs[p as int].1 == to_ints(table@[p as int].1@));
                    assert(to_ints(table@[p as int].1@).len() == table@[p as int].1@.len());
                    assert(rs[0].1 == to_ints(table@[0].1@));
                    assert(to_ints(table@[0].1@).len() == table@[0].1@.len());
                    assert(!consistent(rs));
                }
                return Err(EmbedError::Malformed);
            }
            p = p + 1;
        }
        proof {
            let rs = rows_abs(table@);
            assert forall|q: int| 0 <= q < rs.len() implies (#[trigger] rs[q]).1.len()
                == rs[0].1.len() by {
                assert(rs[q].1 == to_ints(table@[q].1@));
                assert(to_ints(table@[q].1@).len() == table@[q].1@.len());
            }
            assert(rs[0].1.len() == dims) by {
                assert(to_ints(table@[0].1@).len() == table@[0].1@.len());
            }
            assert(consistent(rs));
        }
        self.table = table;
        self.dims = dims;
        proof {
            assert(final(self).rows() == rows_abs(final(self).table@));
        }
        Ok(())
    }

    fn find_row(&self, tok: &String) -> (r: Option<&Vec<i64>>)
        requires
            self.wf(),
        ensures
            match r {
                Some(v) => row_for(self.rows(), tok@) == Some(to_ints(v@))
                    && v@.len() == self.dims_spec() && bounded_entries(v@),
                None => row_for(self.rows(), tok@).is_none(),
            },
    {
        let ghost rs = self.rows();
        let mut i: usize = 0;
        proof {
            assert(rs.skip(0) =~= rs);
        }
        while i < self.table.len()
            invariant
                self.wf(),
                0 <= i <= self.table@.len(),
                rs == self.rows(),
                rs.len() == self.table@.len(),
                row_for(rs, tok@) == row_for(rs.skip(i as int), tok@),
            decreases self.table@.len() - i,
        {
            proof {
                assert(rs.skip(i as int).first() == rs[i as int]);
                assert(rs.skip(i as int).drop_first() =~= rs.skip(i as int + 1));
                assert(rs[i as int] == (self.table@[i as int].0@, to_ints(
                    self.table@[i as int].1@,
                )));
            }
            if self.table[i].0 == *tok {
                return Some(&self.table[i].1);
            }
            i = i + 1;
        }
        proof {
            assert(rs.skip(rs.len() as int) =~= Seq::<(Seq<char>, Seq<int>)>::empty());
        }
        None
    }

    /// The tokens of a text, exactly as `tokens_of` describes them.
    pub fn prepare_text(text: &str) -> (r: Vec<String>)
        ensures
            r@.map_values(|t: String| t@) == tokens_of(text@),
    {
        let filtered = filter_text(text);
        let lowered = lowercase(filtered.as_str());
        split_chars(lowered.as_str(), ' ')
    }

    /// Average the table vectors of the text's matched tokens; the zero
    /// vector of the engine's dimensionality when nothing matches.
    pub fn average_vector(&self, sentence: &str) -> (r: Vec<i64>)
        requires
            self.wf(),
        ensures
            r@.len() == self.dims_spec(),
            to_ints(r@) == average_of(self.rows(), self.dims_spec(), tokens_of(sentence@)),
            bounded_entries(r@),
    {
        let toks = Self::prepare_text(sentence);
        let ghost tviews = toks@.map_values(|t: String| t@);
        let dims = self.dims;
        let ghost rs = self.rows();
        let mut sums: Vec<i128> = Vec::new();
        let mut z: usize = 0;
        while z < dims
            invariant
                0 <= z <= dims,
                sums@.len() == z,
                forall|p: int| 0 <= p < z ==> sums@[p] == 0i128,
            decreases dims - z,
        {
            sums.push(0i128);
            z = z + 1;
        }
        let mut count: usize = 0;
        let mut t: usize = 0;
        proof {
            assert(tviews.take(0) =~= Seq::<Seq<char>>::empty());
            lemma_matched_sum_len(rs, tviews.take(0), dims as nat);
            assert(forall|p: int| 0 <= p < dims
                ==> matched_sum(rs, tviews.take(0), dims as nat)[p] == 0);
        }
        while t < toks.len()
            invariant
                self.wf(),
                rs == self.rows(),
                dims == self.dims_spec(),
                tviews == toks@.map_values(|s: String| s@),
                0 <= t <= toks@.len(),
                0 <= count <= t,
                sums@.len() == dims,
                count as int == matched_count(rs, tviews.take(t as int)),
                forall|p: int| 0 <= p < dims
                    ==> #[trigger] sums@[p] as int == matched_sum(
                        rs,
                        tviews.take(t as int),
                        dims as nat,
                    )[p],
                forall|p: int| 0 <= p < dims
                    ==> -((count as int) * 1048576) <= #[trigger] sums@[p] as int
                        <= (count as int) * 1048576,
            decreases toks@.len() - t,
        {
            proof {
                assert(tviews.take(t as int + 1).drop_last() =~= tviews.take(t as int));
                assert(tviews.take(t as int + 1).last() == tviews[t as int]);
                assert(tviews[t as int] == toks@[t as int]@);
                lemma_matched_sum_len(rs, tviews.take(t as int), dims as nat);
                lemma_matched_sum_len(rs, tviews.take(t as int + 1), dims as nat);
            }
            match self.find_row(&toks[t]) {
                Some(v) => {
                    let ghost old_sums = sums@;
                    let mut j: usize = 0;
                    while j < dims
                        invariant
                            0 <= j <= dims,
                            sums@.len() == dims,
                            v@.len() == dims,
                            bounded_entries(v@),
                            count <= toks@.len(),
                            forall|p: int| j <= p < dims
                                ==> #[trigger] sums@[p] == old_sums[p],
                            forall|p: int| 0 <= p < dims
                                ==> -((count as int) * 1048576)
                                    <= #[trigger] old_sums[p] as int
                                    <= (count as int) * 1048576,
                            forall|p: int| 0 <= p < j
                                ==> #[trigger] sums@[p] as int == old_sums[p] as int
                                    + v@[p] as int,
                        decreases dims - j,
                    {
                        let add = v[j] as i128;
                        proof {
                            assert(-1048576 <= v@[j as int] <= 1048576);
                            assert(sums@[j as int] == old_sums[j as int]);
                        }
                        sums[j] = sums[j] + add;
                        j = j + 1;
                    }
                    count = count + 1;
                    proof {
                        assert(row_for(rs, tviews[t as int]) == Some(to_ints(v@)));
                        let prev = matched_sum(rs, tviews.take(t as int), dims as nat);
                        let ms = matched_sum(rs, tviews.take(t as int + 1), dims as nat);
                        assert(ms == seq_add(prev, to_ints(v@)));
                        assert forall|p: int| 0 <= p < dims implies #[trigger] sums@[p] as int
                            == ms[p] by {
                            assert(prev.len() == dims);
                            assert(ms[p] == prev[p] + to_ints(v@)[p]);
                            assert(to_ints(v@)[p] == v@[p] as int);
                            assert(old_sums[p] as int == prev[p]);
                        }
                    }
                },
                None => {
                    proof {
                        assert(row_for(rs, tviews[t as int]).is_none());
                        assert(matched_sum(rs, tviews.take(t as int + 1), dims as nat)
                            == matched_sum(rs, tviews.take(t as int), dims as nat));
                    }
                },
            }
            t = t + 1;
        }
        proof {
            assert(tviews.take(toks@.len() as int) =~= tviews);
        }
        let mut r: Vec<i64> = Vec::new();
        if count == 0 {
            let mut j: usize = 0;
            while j < dims
                invariant
                    0 <= j <= dims,
                    r@.len() == j,
                    forall|p: int| 0 <= p < j ==> r@[p] == 0i64,
                decreases dims - j,
            {
                r.push(0i64);
                j = j + 1;
            }
            proof {
                assert(to_ints(r@) =~= average_of(rs, dims as nat, tviews));
            }
            r
        } else {
            let c = count as i128;
            let mut j: usize = 0;
            while j < dims
                invariant
                    count >= 1,
                    c == count as i128,
                    sums@.len() == dims,
                    0 <= j <= dims,
                    r@.len() == j,
                    forall|p: int| 0 <= p < dims
                        ==> -((count as int) * 1048576) <= #[trigger] sums@[p] as int
                            <= (count as int) * 1048576,
                    forall|p: int| 0 <= p < j
                        ==> #[trigger] r@[p] as int == tdiv(sums@[p] as int, count as int)
                            && -1048576 <= r@[p] <= 1048576,
                decreases dims - j,
            {
                let q = div_trunc(sums[j], c);
                proof {
                    assert(-((count as int) * 1048576) <= sums@[j as int] as int
                        <= (count as int) * 1048576);
                    lemma_tdiv_bound(sums@[j as int] as int, count as int, 1048576);
                }
                r.push(q as i64);
                j = j + 1;
            }
            proof {
                let avg = average_of(rs, dims as nat, tviews);
                lemma_matched_sum_len(rs, tviews, dims as nat);
                assert(to_ints(r@) =~= avg) by {
                    assert forall|p: int| 0 <= p < dims implies to_ints(r@)[p] == avg[p] by {
                        assert(to_ints(r@)[p] == r@[p] as int);
                    }
                }
            }
            r
        }
    }


    /// The mean of the phrases' average vectors, elementwise.
    pub fn semantic_vector(&self, phrases: &Vec<String>) -> (r: Vec<i64>)
        requires
            self.wf(),
        ensures
            r@.len() == self.dims_spec(),
            to_ints(r@) == mean_of_phrases(
                self.rows(),
                self.dims_spec(),
                phrases@.map_values(|s: String| s@),
            ),
            bounded_entries(r@),
    {
        let ghost rs = self.rows();
        let ghost pviews = phrases@.map_values(|s: String| s@);
        let dims = self.dims;
        let mut sums: Vec<i128> = Vec::new();
        let mut z: usize = 0;
        while z < dims
            invariant
                0 <= z <= dims,
                sums@.len() == z,
                forall|p: int| 0 <= p < z ==> sums@[p] == 0i128,
            decreases dims - z,
        {
            sums.push(0i128);
            z = z + 1;
        }
        let n = phrases.len();
        let mut t: usize = 0;
        proof {
            assert(pviews.take(0) =~= Seq::<Seq<char>>::empty());
            lemma_phrase_sum_len(rs, dims as nat, pviews.take(0));
            assert(forall|p: int| 0 <= p < dims
                ==> phrase_sum(rs, dims as nat, pviews.take(0))[p] == 0);
        }
        while t < n
            invariant
                self.wf(),
                rs == self.rows(),
                dims == self.dims_spec(),
                n == phrases@.len(),
                pviews == phrases@.map_values(|s: String| s@),
                0 <= t <= n,
                sums@.len() == dims,
                forall|p: int| 0 <= p < dims
                    ==> #[trigger] sums@[p] as int == phrase_sum(
                        rs,
                        dims as nat,
                        pviews.take(t as int),
                    )[p],
                forall|p: int| 0 <= p < dims
                    ==> -((t as int) * 1048576) <= #[trigger] sums@[p] as int
                        <= (t as int) * 1048576,
            decreases n - t,
        {
            proof {
                assert(pviews.take(t as int + 1).drop_last() =~= pviews.take(t as int));
                assert(pviews.take(t as int + 1).last() == pviews[t as int]);
                assert(pviews[t as int] == phrases@[t as int]@);
                lemma_phrase_sum_len(rs, dims as nat, pviews.take(t as int));
                lemma_phrase_sum_len(rs, dims as nat, pviews.take(t as int + 1));
            }
            let avg = self.average_vector(phrases[t].as_str());
            let ghost old_sums = sums@;
            let mut j: usize = 0;
            while j < dims
                invariant
                    0 <= j <= dims,
                    sums@.len() == dims,
                    avg@.len() == dims,
                    bounded_entries(avg@),
                    t < n,
                    forall|p: int| j <= p < dims ==> #[trigger] sums@[p] == old_sums[p],
                    forall|p: int| 0 <= p < dims
                        ==> -((t as int) * 1048576) <= #[trigger] old_sums[p] as int
                            <= (t as int) * 1048576,
                    forall|p: int| 0 <= p < j
                        ==> #[trigger] sums@[p] as int == old_sums[p] as int + avg@[p] as int,
                decreases dims - j,
            {
                let add = avg[j] as i128;
                proof {
                    assert(-1048576 <= avg@[j as int] <= 1048576);
                    assert(sums@[j as int] == old_sums[j as int]);
                }
                sums[j] = sums[j] + add;
                j = j + 1;
            }
            proof {
                let prev = phrase_sum(rs, dims as nat, pviews.take(t as int));
                let cur = phrase_sum(rs, dims as nat, pviews.take(t as int + 1));
                assert(cur == seq_add(prev, average_of(rs, dims as nat, tokens_of(
                    pviews[t as int],
                ))));
                assert forall|p: int| 0 <= p < dims implies #[trigger] sums@[p] as int
                    == cur[p] by {
                    assert(prev.len() == dims);
                    assert(cur[p] == prev[p] + average_of(rs, dims as nat, tokens_of(
                        pviews[t as int],
                    ))[p]);
                    assert(to_ints(avg@)[p] == avg@[p] as int);
                    assert(old_sums[p] as int == prev[p]);
                }
            }
            t = t + 1;
        }
        proof {
            assert(pviews.take(n as int) =~= pviews);
        }
        let mut r: Vec<i64> = Vec::new();
        if n == 0 {
            let mut j: usize = 0;
            while j < dims
                invariant
                    0 <= j <= dims,
                    r@.len() == j,
                    forall|p: int| 0 <= p < j ==> r@[p] == 0i64,
                decreases dims - j,
            {
                r.push(0i64);
                j = j + 1;
            }
            proof {
                assert(to_ints(r@) =~= mean_of_phrases(rs, dims as nat, pviews));
            }
            r
        } else {
            let c = n as i128;
            let mut j: usize = 0;
            while j < dims
                invariant
                    n >= 1,
                    c == n as i128,
                    sums@.len() == dims,
                    0 <= j <= dims,
                    r@.len() == j,
                    forall|p: int| 0 <= p < dims
                        ==> -((n as int) * 1048576) <= #[trigger] sums@[p] as int
                            <= (n as int) * 1048576,
                    forall|p: int| 0 <= p < j
                        ==> #[trigger] r@[p] as int == tdiv(sums@[p] as int, n as int)
                            && -1048576 <= r@[p] <= 1048576,
                decreases dims - j,
            {
                let q = div_trunc(sums[j], c);
                proof {
                    lemma_tdiv_bound(sums@[j as int] as int, n as int, 1048576);
                }
                r.push(q as i64);
                j = j + 1;
            }
            proof {
                let mean = mean_of_phrases(rs, dims as nat, pviews);
                lemma_phrase_sum_len(rs, dims as nat, pviews);
                assert(to_ints(r@) =~= mean) by {
                    assert forall|p: int| 0 <= p < dims implies to_ints(r@)[p] == mean[p] by {
                        assert(to_ints(r@)[p] == r@[p] as int);
                    }
                }
            }
            r
        }
    }

    /// The similarity of two texts: the cosine of their average vectors,
    /// undefined when either embeds to zero.
    pub fn similarity_string(&self, phrase1: &str, phrase2: &str) -> (r: Option<i64>)
        requires
            self.wf(),
        ensures
            ({
                let va = from_ints(average_of(self.rows(), self.dims_spec(), tokens_of(
                    phrase1@,
                )));
                let vb = from_ints(average_of(self.rows(), self.dims_spec(), tokens_of(
                    phrase2@,
                )));
                &&& (r.is_some() <==> (norm_sq(va) != 0 && norm_sq(vb) != 0))
                &&& r.is_some() ==> r.unwrap() as int == tdiv(
                    dot_of(va, vb) * (SCALE as int) * (SCALE as int),
                    sqrt_floor(norm_sq(va) * norm_sq(vb) * (SCALE as int) * (SCALE as int)),
                )
                &&& r.is_some() ==> -SCALE <= r.unwrap() <= SCALE
            }),
    {
        let a = self.average_vector(phrase1);
        let b = self.average_vector(phrase2);
        proof {
            let avg1 = average_of(self.rows(), self.dims_spec(), tokens_of(phrase1@));
            let avg2 = average_of(self.rows(), self.dims_spec(), tokens_of(phrase2@));
            assert(a@ =~= from_ints(avg1)) by {
                assert forall|i: int| 0 <= i < a@.len() implies a@[i] == from_ints(
                    avg1,
                )[i] by {
                    assert(to_ints(a@)[i] == a@[i] as int);
                }
            }
            assert(b@ =~= from_ints(avg2)) by {
                assert forall|i: int| 0 <= i < b@.len() implies b@[i] == from_ints(
                    avg2,
                )[i] by {
                    assert(to_ints(b@)[i] == b@[i] as int);
                }
            }
        }
        Embedding::cosine_similarity(&a, &b)
    }
    /// The length-normalized dot product of two stored vectors, in
    /// thousandths; undefined — `None` — when either vector is all zero. A
    /// defined result always lies within one: the dot product never exceeds
    /// the scaled root of the product of the norms (Cauchy-Schwarz).
    pub fn cosine_similarity(a: &Vec<i64>, b: &Vec<i64>) -> (r: Option<i64>)
        requires
            a@.len() == b@.len(),
            a@.len() <= MAX_DIM,
            bounded_entries(a@),
            bounded_entries(b@),
        ensures
            r.is_some() <==> (norm_sq(a@) != 0 && norm_sq(b@) != 0),
            r.is_some() ==> r.unwrap() as int == tdiv(
                dot_of(a@, b@) * (SCALE as int) * (SCALE as int),
                sqrt_floor(norm_sq(a@) * norm_sq(b@) * (SCALE as int) * (SCALE as int)),
            ),
            r.is_some() ==> -SCALE <= r.unwrap() <= SCALE,
    {
        let n = a.len();
        let mut dot: i128 = 0;
        let mut na: i128 = 0;
        let mut nb: i128 = 0;
        let mut i: usize = 0;
        proof {
            assert(a@.take(0) =~= Seq::<i64>::empty());
            assert(b@.take(0) =~= Seq::<i64>::empty());
        }
        while i < n
            invariant
                n == a@.len() == b@.len(),
                a@.len() <= MAX_DIM,
                bounded_entries(a@),
                bounded_entries(b@),
                0 <= i <= n,
                dot as int == dot_of(a@.take(i as int), b@.take(i as int)),
                na as int == norm_sq(a@.take(i as int)),
                nb as int == norm_sq(b@.take(i as int)),
                -((i as int) * 1099511627776) <= dot as int,
                dot as int <= (i as int) * 1099511627776,
                0 <= na as int <= (i as int) * 1099511627776,
                0 <= nb as int <= (i as int) * 1099511627776,
            decreases n - i,
        {
            let x = a[i] as i128;
            let y = b[i] as i128;
            proof {
                assert(a@.take(i as int + 1).drop_last() =~= a@.take(i as int));
                assert(b@.take(i as int + 1).drop_last() =~= b@.take(i as int));
                assert(a@.take(i as int + 1).last() == a@[i as int]);
                assert(b@.take(i as int + 1).last() == b@[i as int]);
                assert(-1048576 <= x as int <= 1048576);
                assert(-1048576 <= y as int <= 1048576);
                assert(-1099511627776 <= (x as int) * (y as int) <= 1099511627776)
                    by (nonlinear_arith)
                    requires -1048576 <= x as int <= 1048576, -1048576 <= y as int <= 1048576;
                assert(0 <= (x as int) * (x as int) <= 1099511627776) by (nonlinear_arith)
                    requires -1048576 <= x as int <= 1048576;
                assert(0 <= (y as int) * (y as int) <= 1099511627776) by (nonlinear_arith)
                    requires -1048576 <= y as int <= 1048576;
            }
            dot = dot + x * y;
            na = na + x * x;
            nb = nb + y * y;
            i = i + 1;
        }
        proof {
            assert(a@.take(n as int) =~= a@);
            assert(b@.take(n as int) =~= b@);
            assert(n as int <= 4096);
            assert(-4503599627370496 <= dot as int <= 4503599627370496);
            assert(0 <= na as int <= 4503599627370496);
            assert(0 <= nb as int <= 4503599627370496);
        }
        if na == 0 || nb == 0 {
            return None;
        }
        proof {
            assert(1 <= (na as int) * (nb as int)
                <= 4503599627370496 * 4503599627370496) by (nonlinear_arith)
                requires 1 <= na as int <= 4503599627370496,
                    1 <= nb as int <= 4503599627370496;
        }
        let scaled = na * nb * 1000000;
        let s = isqrt(scaled as u128);
        proof {
            assert(is_isqrt(s as int, scaled as int));
            lemma_cauchy_schwarz(a@, b@);
            assert((dot as int) * (dot as int) <= (na as int) * (nb as int));
            assert(((dot as int) * 1000) * ((dot as int) * 1000) <= scaled as int)
                by (nonlinear_arith)
                requires (dot as int) * (dot as int) <= (na as int) * (nb as int),
                    scaled as int == (na as int) * (nb as int) * 1000000;
            assert(-(s as int) <= (dot as int) * 1000 && (dot as int) * 1000 <= s as int)
                by (nonlinear_arith)
                requires ((dot as int) * 1000) * ((dot as int) * 1000) <= scaled as int,
                    (s as int + 1) * (s as int + 1) > scaled as int, s as int >= 0;
            assert(scaled as int >= 1000000);
            assert(s as int >= 1) by (nonlinear_arith)
                requires (s as int + 1) * (s as int + 1) > scaled as int,
                    scaled as int >= 1000000, s as int >= 0;
            assert(s as int <= 0x4000000000000000) by (nonlinear_arith)
                requires (s as int) * (s as int) <= scaled as int,
                    (scaled as int) < 0x10000000000000000000000000000000, s as int >= 0;
            assert(scaled as int == ((na as int) * (nb as int)) * 1000 * 1000);
            assert(s as int == sqrt_floor(
                norm_sq(a@) * norm_sq(b@) * (SCALE as int) * (SCALE as int),
            ));
        }
        let num = dot * 1000000;
        let q = div_trunc(num, s as i128);
        proof {
            assert(num as int == ((dot as int) * 1000) * 1000);
            assert(num as int == dot_of(a@, b@) * (SCALE as int) * (SCALE as int));
            assert(-((s as int) * 1000) <= num as int && num as int <= (s as int) * 1000);
            lemma_tdiv_bound(num as int, s as int, 1000);
        }
        Some(q as i64)
    }
}

/// The whole abstract table held in an entry vector.
pub open spec fn rows_abs(t: Seq<(String, Vec<i64>)>) -> Seq<(Seq<char>, Seq<int>)> {
    t.map_values(|r: (String, Vec<i64>)| (r.0@, to_ints(r.1@)))
}

/// A quotient of a value bounded by `b·c` lies within `c`.
pub proof fn lemma_tdiv_bound(a: int, b: int, c: int)
    requires
        b > 0,
        c >= 0,
        -(b * c) <= a <= b * c,
    ensures
        -c <= tdiv(a, b) <= c,
{
    vstd::arithmetic::div_mod::lemma_fundamental_div_mod(a, b);
    if a >= 0 {
        vstd::arithmetic::div_mod::lemma_div_pos_is_pos(a, b);
        assert(a / b <= c) by (nonlinear_arith)
            requires a == b * (a / b) + a % b, 0 <= a % b < b, a <= b * c, b > 0;
    } else {
        let m = -a;
        vstd::arithmetic::div_mod::lemma_fundamental_div_mod(m, b);
        vstd::arithmetic::div_mod::lemma_div_pos_is_pos(m, b);
        assert(m <= b * c);
        assert(m / b <= c) by (nonlinear_arith)
            requires m == b * (m / b) + m % b, 0 <= m % b < b, m <= b * c, b > 0;
    }
}

} // verus!
