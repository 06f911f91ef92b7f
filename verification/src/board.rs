//! Square letter grid and the depth-first word search over it.
use crate::lexicon::Lexicon;
use vstd::pervasive::VecAdditionalExecFns;
use vstd::prelude::*;

verus! {

/// Distinct cells whose rows and columns each differ by at most one.
pub open spec fn adjacent(p: (usize, usize), q: (usize, usize)) -> bool {
    &&& p != q
    &&& -1 <= (q.0 as int) - (p.0 as int)
    &&& (q.0 as int) - (p.0 as int) <= 1
    &&& -1 <= (q.1 as int) - (p.1 as int)
    &&& (q.1 as int) - (p.1 as int) <= 1
}

/// Flat index of cell `(r, c)` on a grid of side `dim`.
pub open spec fn cell_index(dim: int, r: int, c: int) -> int {
    r * dim + c
}

/// How many flags of `v` are set.
spec fn count_true(v: Seq<bool>) -> int
    decreases v.len(),
{
    if v.len() == 0 {
        0
    } else {
        (if v[0] {
            1int
        } else {
            0int
        }) + count_true(v.drop_first())
    }
}

proof fn lemma_count_true_bounds(v: Seq<bool>)
    ensures
        0 <= count_true(v) <= v.len(),
    decreases v.len(),
{
    if v.len() > 0 {
        lemma_count_true_bounds(v.drop_first());
    }
}

proof fn lemma_count_true_update(v: Seq<bool>, i: int, b: bool)
    requires
        0 <= i < v.len(),
    ensures
        count_true(v.update(i, b)) == count_true(v) - (if v[i] {
            1int
        } else {
            0int
        }) + (if b {
            1int
        } else {
            0int
        }),
    decreases v.len(),
{
    if i == 0 {
        assert(v.update(0, b).drop_first() =~= v.drop_first());
    } else {
        assert(v.update(i, b).drop_first() =~= v.drop_first().update(i - 1, b));
        assert(v.update(i, b)[0] == v[0]);
        lemma_count_true_update(v.drop_first(), i - 1, b);
        assert(v.drop_first()[i - 1] == v[i]);
    }
}

proof fn lemma_count_true_all_false(v: Seq<bool>)
    requires
        forall|i: int| 0 <= i < v.len() ==> !v[i],
    ensures
        count_true(v) == 0,
    decreases v.len(),
{
    if v.len() > 0 {
        assert(forall|i: int| 0 <= i < v.drop_first().len() ==> v.drop_first()[i] == v[i + 1]);
        lemma_count_true_all_false(v.drop_first());
    }
}

proof fn lemma_prefix_trans(a: Seq<Word>, b: Seq<Word>, c: Seq<Word>)
    requires
        a.is_prefix_of(b),
        b.is_prefix_of(c),
    ensures
        a.is_prefix_of(c),
{
    assert(a =~= c.subrange(0, a.len() as int));
}

/// The grid's character count is not a perfect square.
#[derive(Debug, PartialEq, Eq, Structural)]
pub struct ShapeError;

/// Widening square, free of overflow for any machine-word argument.
fn sq(d: usize) -> (r: u128)
    ensures
        r == (d as int) * (d as int),
{
    proof {
        assert((d as int) * (d as int) <= 0xffff_ffff_ffff_ffff * 0xffff_ffff_ffff_ffff)
            by (nonlinear_arith)
            requires
                0 <= (d as int),
                (d as int) <= 0xffff_ffff_ffff_ffff,
        ;
    }
    (d as u128) * (d as u128)
}

/// Integer square root: `Some(d)` iff `d * d == x`.
fn sqrt(x: usize) -> (r: Option<usize>)
    ensures
        match r {
            Some(d) => d * d == x,
            None => forall|d: int| 0 <= d ==> #[trigger] (d * d) != x,
        },
{
    let mut d: usize = 0;
    while sq(d) < (x as u128)
        invariant
            d <= x,
            forall|e: int| 0 <= e < d ==> #[trigger] (e * e) < x,
        decreases x - d,
    {
        proof {
            if d >= 1 {
                assert((d as int) * (d as int) >= d as int) by (nonlinear_arith)
                    requires
                        d >= 1,
                ;
            }
        }
        d = d + 1;
    }
    if sq(d) == (x as u128) {
        Some(d)
    } else {
        proof {
            assert forall|e: int| 0 <= e ==> #[trigger] (e * e) != x by {
                if 0 <= e < d {
                    assert(e * e < x);
                } else if e >= d {
                    assert(e * e >= (d as int) * (d as int)) by (nonlinear_arith)
                        requires
                            e >= d >= 0,
                    ;
                }
            }
        }
        None
    }
}

/// A `dim x dim` matrix of characters, immutable after construction.
pub struct Board {
    chars: Vec<Vec<char>>,
    dim: usize,
}

/// The rows of a vector of character vectors, as sequences.
spec fn rows_view(chars: Vec<Vec<char>>) -> Seq<Seq<char>> {
    Seq::new(chars@.len(), |i: int| chars@[i]@)
}

impl Board {
    /// The grid as a sequence of rows.
    pub closed spec fn grid(self) -> Seq<Seq<char>> {
        rows_view(self.chars)
    }

    pub closed spec fn dim_spec(self) -> int {
        self.dim as int
    }

    /// Square shape, with a cell count that fits the machine.
    pub closed spec fn wf(self) -> bool {
        &&& self.grid().len() == self.dim_spec()
        &&& (forall|i: int| 0 <= i < self.dim_spec() ==> (#[trigger] self.grid()[i]).len()
            == self.dim_spec())
        &&& self.dim_spec() * self.dim_spec() <= usize::MAX
    }

    /// Builds the square grid from a flat character sequence in row-major
    /// order; rejects any length that has no integer square root.
    pub fn new(cs: &Vec<char>) -> (r: Result<Board, ShapeError>)
        ensures
            match r {
                Ok(b) => {
                    &&& b.wf()
                    &&& b.dim_spec() * b.dim_spec() == cs@.len()
                    &&& forall|i: int, j: int|
                        0 <= i < b.dim_spec() && 0 <= j < b.dim_spec() ==> b.grid()[i][j] == cs@[i
                            * b.dim_spec() + j]
                },
                Err(e) => forall|d: int| 0 <= d ==> #[trigger] (d * d) != cs@.len(),
            },
    {
        let dim = match sqrt(cs.len()) {
            Some(d) => d,
            None => {
                return Err(ShapeError);
            },
        };
        let mut chars: Vec<Vec<char>> = Vec::new();
        let mut i: usize = 0;
        while i < dim
            invariant
                i <= dim,
                cs@.len() <= usize::MAX,
                (dim as int) * (dim as int) == cs@.len(),
                rows_view(chars).len() == i,
                forall|r: int| 0 <= r < i ==> (#[trigger] rows_view(chars)[r]).len() == dim,
                forall|r: int, c: int|
                    0 <= r < i && 0 <= c < dim ==> rows_view(chars)[r][c] == cs@[r * (dim as int)
                        + c],
            decreases dim - i,
        {
            let ghost prev = rows_view(chars);
            let mut row: Vec<char> = Vec::new();
            let mut j: usize = 0;
            proof {
                assert((i as int) * (dim as int) + (dim as int) <= (dim as int) * (dim as int))
                    by (nonlinear_arith)
                    requires
                        0 <= i as int,
                        (i as int) < (dim as int),
                ;
                assert((i as int) * (dim as int) >= 0) by (nonlinear_arith)
                    requires
                        i as int >= 0,
                        dim as int >= 0,
                ;
            }
            while j < dim
                invariant
                    j <= dim,
                    i < dim,
                    cs@.len() <= usize::MAX,
                    (dim as int) * (dim as int) == cs@.len(),
                    (i as int) * (dim as int) + (dim as int) <= cs@.len(),
                    (i as int) * (dim as int) >= 0,
                    row@.len() == j,
                    forall|c: int| 0 <= c < j ==> row@[c] == cs@[(i as int) * (dim as int) + c],
                decreases dim - j,
            {
                row.push(cs[i * dim + j]);
                j = j + 1;
            }
            chars.push(row);
            proof {
                assert(rows_view(chars) =~= prev.push(chars@.last()@));
            }
            i = i + 1;
        }
        let b = Board { chars, dim };
        Ok(b)
    }

    pub fn dim(&self) -> (r: usize)
        ensures
            r == self.dim_spec(),
    {
        self.dim
    }

    pub fn at(&self, i: usize, j: usize) -> (c: char)
        requires
            self.wf(),
            i < self.dim_spec(),
            j < self.dim_spec(),
        ensures
            c == self.grid()[i as int][j as int],
    {
        proof {
            assert(self.grid()[i as int] == self.chars@[i as int]@);
        }
        self.chars[i][j]
    }
}

/// One candidate or discovered word: its text and the cells that spell it,
/// in order. Grown and shrunk in matched push/pop pairs while backtracking.
pub struct Word {
    text: Vec<char>,
    path: Vec<(usize, usize)>,
}

/// `w`'s path spells `w`'s text on `grid`: equal lengths, cells in bounds,
/// no cell repeated, consecutive cells adjacent, characters matching.
pub open spec fn traces_on(w: Word, grid: Seq<Seq<char>>) -> bool {
    &&& w.text_seq().len() == w.path_seq().len()
    &&& (forall|k: int|
        0 <= k < w.path_seq().len() ==> (#[trigger] w.path_seq()[k]).0 < grid.len()
            && w.path_seq()[k].1 < grid.len())
    &&& (forall|k: int, l: int|
        0 <= k < l < w.path_seq().len() ==> w.path_seq()[k] != w.path_seq()[l])
    &&& (forall|k: int|
        0 <= k < w.path_seq().len() - 1 ==> adjacent(
            #[trigger] w.path_seq()[k],
            w.path_seq()[k + 1],
        ))
    &&& (forall|k: int|
        0 <= k < w.path_seq().len() ==> w.text_seq()[k] == grid[(
        #[trigger] w.path_seq()[k]).0 as int][w.path_seq()[k].1 as int])
}

impl Word {
    pub closed spec fn text_seq(self) -> Seq<char> {
        self.text@
    }

    pub closed spec fn path_seq(self) -> Seq<(usize, usize)> {
        self.path@
    }

    pub fn new() -> (r: Word)
        ensures
            r.text_seq().len() == 0,
            r.path_seq().len() == 0,
    {
        Word { text: Vec::new(), path: Vec::new() }
    }

    /// Appends one character and the cell it was read from.
    pub fn push(&mut self, c: char, p: (usize, usize))
        ensures
            final(self).text_seq() == old(self).text_seq().push(c),
            final(self).path_seq() == old(self).path_seq().push(p),
    {
        self.text.push(c);
        self.path.push(p);
    }

    /// Undoes the last `push`, returning what it appended.
    pub fn pop(&mut self) -> (r: Option<(char, (usize, usize))>)
        ensures
            match r {
                Some(cp) => {
                    &&& old(self).text_seq().len() > 0
                    &&& old(self).path_seq().len() > 0
                    &&& cp.0 == old(self).text_seq().last()
                    &&& cp.1 == old(self).path_seq().last()
                    &&& final(self).text_seq() == old(self).text_seq().drop_last()
                    &&& final(self).path_seq() == old(self).path_seq().drop_last()
                },
                None => {
                    &&& final(self).path_seq() == old(self).path_seq()
                    &&& (if old(self).text_seq().len() == 0 {
                        final(self).text_seq() == old(self).text_seq()
                    } else {
                        old(self).path_seq().len() == 0 && final(self).text_seq() == old(
                            self,
                        ).text_seq().drop_last()
                    })
                },
            },
    {
        let t = match self.text.pop() {
            Some(t) => t,
            None => {
                return None;
            },
        };
        let p = match self.path.pop() {
            Some(p) => p,
            None => {
                return None;
            },
        };
        Some((t, p))
    }

    pub fn len(&self) -> (r: usize)
        ensures
            r == self.text_seq().len(),
    {
        self.text.len()
    }

    pub fn text(&self) -> (r: &Vec<char>)
        ensures
            r@ == self.text_seq(),
    {
        &self.text
    }

    pub fn path(&self) -> (r: &Vec<(usize, usize)>)
        ensures
            r@ == self.path_seq(),
    {
        &self.path
    }
}

fn copy_chars(src: &Vec<char>) -> (r: Vec<char>)
    ensures
        r@ == src@,
{
    let mut r: Vec<char> = Vec::new();
    let mut k: usize = 0;
    while k < src.len()
        invariant
            k <= src@.len(),
            r@ == src@.take(k as int),
        decreases src@.len() - k,
    {
        r.push(src[k]);
        proof {
            assert(r@ =~= src@.take(k as int + 1));
        }
        k = k + 1;
    }
    proof {
        assert(src@.take(src@.len() as int) =~= src@);
    }
    r
}

fn copy_cells(src: &Vec<(usize, usize)>) -> (r: Vec<(usize, usize)>)
    ensures
        r@ == src@,
{
    let mut r: Vec<(usize, usize)> = Vec::new();
    let mut k: usize = 0;
    while k < src.len()
        invariant
            k <= src@.len(),
            r@ == src@.take(k as int),
        decreases src@.len() - k,
    {
        r.push(src[k]);
        proof {
            assert(r@ =~= src@.take(k as int + 1));
        }
        k = k + 1;
    }
    proof {
        assert(src@.take(src@.len() as int) =~= src@);
    }
    r
}

fn copy_word(w: &Word) -> (r: Word)
    ensures
        r.text_seq() == w.text_seq(),
        r.path_seq() == w.path_seq(),
{
    Word { text: copy_chars(&w.text), path: copy_cells(&w.path) }
}

fn text_eq(a: &Vec<char>, b: &Vec<char>) -> (r: bool)
    ensures
        r == (a@ == b@),
{
    if a.len() != b.len() {
        return false;
    }
    let mut k: usize = 0;
    while k < a.len()
        invariant
            a@.len() == b@.len(),
            k <= a@.len(),
            forall|i: int| 0 <= i < k ==> a@[i] == b@[i],
        decreases a@.len() - k,
    {
        if a[k] != b[k] {
            return false;
        }
        k = k + 1;
    }
    proof {
        assert(a@ =~= b@);
    }
    true
}

/// The distinct words found by one search, in order of first discovery;
/// each with the path that first produced it.
pub struct BoardResult {
    words: Vec<Word>,
}

impl BoardResult {
    pub closed spec fn items(self) -> Seq<Word> {
        self.words@
    }

    /// No two entries share a text.
    pub open spec fn unique_texts(self) -> bool {
        forall|k: int, l: int|
            0 <= k < l < self.items().len() ==> (#[trigger] self.items()[k]).text_seq() != (
            #[trigger] self.items()[l]).text_seq()
    }

    pub fn new() -> (r: BoardResult)
        ensures
            r.items().len() == 0,
            r.unique_texts(),
    {
        BoardResult { words: Vec::new() }
    }

    /// Inserts unless a word with the same text is already present: the
    /// first occurrence and its path win.
    pub fn add(&mut self, w: Word)
        ensures
            (exists|k: int|
                0 <= k < old(self).items().len() && (#[trigger] old(
                    self,
                ).items()[k]).text_seq() == w.text_seq()) ==> final(self).items() == old(
                self,
            ).items(),
            !(exists|k: int|
                0 <= k < old(self).items().len() && (#[trigger] old(
                    self,
                ).items()[k]).text_seq() == w.text_seq()) ==> final(self).items() == old(
                self,
            ).items().push(w),
    {
        let mut k: usize = 0;
        while k < self.words.len()
            invariant
                k <= self.words@.len(),
                forall|i: int| 0 <= i < k ==> (#[trigger] self.words@[i]).text_seq() != w.text_seq(),
            decreases self.words@.len() - k,
        {
            if text_eq(&self.words[k].text, &w.text) {
                return ;
            }
            k = k + 1;
        }
        self.words.push(w);
    }

    pub fn len(&self) -> (r: usize)
        ensures
            r == self.items().len(),
    {
        self.words.len()
    }

    pub fn get(&self, k: usize) -> (r: &Word)
        requires
            k < self.items().len(),
        ensures
            *r == self.items()[k as int],
    {
        &self.words[k]
    }

    /// Appends copies of all entries whose text length is exactly `li`, in
    /// their stored order.
    fn append_of_len(&self, out: &mut Vec<Word>, li: usize)
        ensures
            word_views_of(final(out)@) == word_views_of(old(out)@) + of_len(
                word_views_of(self.items()),
                li as int,
            ),
    {
        let ghost vs = word_views_of(self.items());
        let ghost out0 = old(out)@;
        proof {
            assert(vs.take(0) =~= Seq::<WordView>::empty());
            reveal(Seq::filter);
            assert(word_views_of(out0) + of_len(vs.take(0), li as int) =~= word_views_of(out0));
        }
        let mut k: usize = 0;
        while k < self.words.len()
            invariant
                k <= self.words@.len(),
                vs == word_views_of(self.words@),
                word_views_of(out@) == word_views_of(out0) + of_len(vs.take(k as int), li as int),
            decreases self.words@.len() - k,
        {
            proof {
                reveal(Seq::filter);
                assert(vs.take(k as int + 1).drop_last() =~= vs.take(k as int));
                assert(vs.take(k as int + 1).last() == vs[k as int]);
                assert(vs[k as int] == word_view(self.words@[k as int]));
            }
            let wref = &self.words[k];
            if wref.text.len() == li {
                let wc = copy_word(wref);
                let ghost outp = out@;
                out.push(wc);
                proof {
                    assert(word_view(wc) == vs[k as int]);
                    assert(word_views_of(out@) =~= word_views_of(outp).push(word_view(wc)));
                    assert(of_len(vs.take(k as int + 1), li as int) == of_len(
                        vs.take(k as int),
                        li as int,
                    ).push(vs[k as int]));
                    assert(word_views_of(out@) =~= word_views_of(out0) + of_len(
                        vs.take(k as int + 1),
                        li as int,
                    ));
                }
            } else {
                proof {
                    assert(of_len(vs.take(k as int + 1), li as int) == of_len(
                        vs.take(k as int),
                        li as int,
                    ));
                }
            }
            k = k + 1;
        }
        proof {
            assert(vs.take(vs.len() as int) =~= vs);
        }
    }

    /// All words ordered by descending text length; within one length the
    /// first-insertion order is kept. The result is fully determined by the
    /// stored contents.
    pub fn sorted_view(&self) -> (r: Vec<Word>)
        ensures
            word_views_of(r@) == desc_between(
                word_views_of(self.items()),
                max_text_len(word_views_of(self.items())) + 1,
                0,
            ),
    {
        let ghost vs = word_views_of(self.items());
        let mut maxlen: usize = 0;
        let mut k: usize = 0;
        proof {
            assert(vs.take(0) =~= Seq::<WordView>::empty());
        }
        while k < self.words.len()
            invariant
                k <= self.words@.len(),
                vs == word_views_of(self.words@),
                maxlen as int == max_text_len(vs.take(k as int)),
            decreases self.words@.len() - k,
        {
            proof {
                assert(vs.take(k as int + 1).drop_last() =~= vs.take(k as int));
                assert(vs.take(k as int + 1).last() == vs[k as int]);
                assert(vs[k as int] == word_view(self.words@[k as int]));
            }
            let l = self.words[k].text.len();
            if l > maxlen {
                maxlen = l;
            }
            k = k + 1;
        }
        proof {
            assert(vs.take(vs.len() as int) =~= vs);
        }
        let mut out: Vec<Word> = Vec::new();
        proof {
            assert(word_views_of(Seq::<Word>::empty()) =~= Seq::<WordView>::empty());
            assert(desc_between(vs, maxlen as int + 1, maxlen as int + 1) == Seq::<
                WordView,
            >::empty());
        }
        let mut li = maxlen;
        while li > 0
            invariant
                li <= maxlen,
                vs == word_views_of(self.items()),
                maxlen as int == max_text_len(vs),
                word_views_of(out@) == desc_between(vs, maxlen as int + 1, li as int + 1),
            decreases li,
        {
            self.append_of_len(&mut out, li);
            proof {
                lemma_desc_snoc(vs, maxlen as int + 1, li as int);
            }
            li = li - 1;
        }
        self.append_of_len(&mut out, 0);
        proof {
            lemma_desc_snoc(vs, maxlen as int + 1, 0);
        }
        out
    }
}

/// The text and path of one word, as plain sequences.
pub type WordView = (Seq<char>, Seq<(usize, usize)>);

pub open spec fn word_view(w: Word) -> WordView {
    (w.text_seq(), w.path_seq())
}

pub open spec fn word_views_of(ws: Seq<Word>) -> Seq<WordView> {
    ws.map_values(|w: Word| word_view(w))
}

/// The entries whose text length is exactly `n`, in their given order.
pub open spec fn of_len(ws: Seq<WordView>, n: int) -> Seq<WordView> {
    ws.filter(|p: WordView| p.0.len() == n)
}

/// The entries with text length in `[lo, hi)`, longest length first, and
/// within one length in their given order.
pub open spec fn desc_between(ws: Seq<WordView>, hi: int, lo: int) -> Seq<WordView>
    decreases hi - lo,
{
    if hi <= lo {
        Seq::empty()
    } else {
        of_len(ws, hi - 1) + desc_between(ws, hi - 1, lo)
    }
}

/// The longest text length among the entries (zero when there are none).
pub open spec fn max_text_len(ws: Seq<WordView>) -> int
    decreases ws.len(),
{
    if ws.len() == 0 {
        0
    } else if ws.last().0.len() > max_text_len(ws.drop_last()) {
        ws.last().0.len() as int
    } else {
        max_text_len(ws.drop_last())
    }
}

proof fn lemma_desc_snoc(ws: Seq<WordView>, hi: int, lo: int)
    requires
        0 <= lo < hi,
    ensures
        desc_between(ws, hi, lo + 1) + of_len(ws, lo) == desc_between(ws, hi, lo),
    decreases hi - lo,
{
    if hi == lo + 1 {
        assert(desc_between(ws, hi, lo + 1) =~= Seq::<WordView>::empty());
        assert(desc_between(ws, lo, lo) =~= Seq::<WordView>::empty());
        assert(desc_between(ws, hi, lo + 1) + of_len(ws, lo) =~= desc_between(ws, hi, lo));
    } else {
        lemma_desc_snoc(ws, hi - 1, lo);
        assert(desc_between(ws, hi, lo + 1) + of_len(ws, lo) =~= desc_between(ws, hi, lo));
    }
}

/// `w`'s path visits cell `(r, c)`.
pub open spec fn path_has(w: Word, r: int, c: int) -> bool {
    w.path_seq().contains(((r as usize), (c as usize)))
}

/// Every collected word traces on the grid, is longer than two characters,
/// and is a dictionary word.
pub open spec fn all_reported(res: BoardResult, grid: Seq<Seq<char>>, lex: Lexicon) -> bool {
    forall|k: int|
        0 <= k < res.items().len() ==> (traces_on(#[trigger] res.items()[k], grid)
            && res.items()[k].text_seq().len() > 2 && lex.contains_word(res.items()[k].text_seq()))
}

/// The characters at the cells of `p`, in order.
pub open spec fn spell(grid: Seq<Seq<char>>, p: Seq<(usize, usize)>) -> Seq<char> {
    Seq::new(p.len(), |k: int| grid[(p[k].0) as int][(p[k].1) as int])
}

/// `p` legally continues a path that already covers `base`: it is nonempty,
/// stays in bounds, repeats no cell, avoids `base`, steps only between
/// adjacent cells, and starts next to `base`'s last cell when `base` is
/// not empty.
pub open spec fn continuation_ok(
    grid: Seq<Seq<char>>,
    base: Seq<(usize, usize)>,
    p: Seq<(usize, usize)>,
) -> bool {
    &&& p.len() > 0
    &&& (forall|k: int|
        0 <= k < p.len() ==> (#[trigger] p[k]).0 < grid.len() && p[k].1 < grid.len())
    &&& (forall|k: int, l: int| 0 <= k < l < p.len() ==> p[k] != p[l])
    &&& (forall|k: int| 0 <= k < p.len() ==> !base.contains(#[trigger] p[k]))
    &&& (forall|k: int| 0 <= k < p.len() - 1 ==> adjacent(#[trigger] p[k], p[k + 1]))
    &&& (base.len() > 0 ==> adjacent(base.last(), p[0]))
}

/// Some collected word has exactly the text `t`.
pub open spec fn has_text(res: BoardResult, t: Seq<char>) -> bool {
    exists|k: int| 0 <= k < res.items().len() && (#[trigger] res.items()[k]).text_seq() == t
}

/// `t` can be traced as a connected non-repeating path on `grid`.
pub open spec fn traceable(grid: Seq<Seq<char>>, t: Seq<char>) -> bool {
    exists|p: Seq<(usize, usize)>|
        continuation_ok(grid, Seq::empty(), p) && spell(grid, p) == t
}

proof fn lemma_has_text_mono(a: BoardResult, b: BoardResult, t: Seq<char>)
    requires
        a.items().is_prefix_of(b.items()),
        has_text(a, t),
    ensures
        has_text(b, t),
{
    let k = choose|k: int|
        0 <= k < a.items().len() && (#[trigger] a.items()[k]).text_seq() == t;
    assert(a.items() =~= b.items().subrange(0, a.items().len() as int));
    assert(b.items()[k] == a.items()[k]);
}

/// Reading one more character: appending `s` equals appending its head and
/// then its tail.
proof fn lemma_text_shift(a: Seq<char>, s: Seq<char>)
    requires
        s.len() > 0,
    ensures
        a + s == a.push(s[0]) + s.drop_first(),
{
    assert forall|m: int| 0 <= m < (a + s).len() implies (a + s)[m] == (a.push(s[0])
        + s.drop_first())[m] by {
        if m < a.len() {
        } else if m == a.len() {
        } else {
            assert((a + s)[m] == s[m - a.len()]);
            assert((a.push(s[0]) + s.drop_first())[m] == s.drop_first()[m - a.len() - 1]);
            assert(s.drop_first()[m - a.len() - 1] == s[m - a.len()]);
        }
    }
    assert(a + s =~= a.push(s[0]) + s.drop_first());
}

proof fn lemma_spell_shift(grid: Seq<Seq<char>>, p: Seq<(usize, usize)>)
    requires
        p.len() > 0,
    ensures
        spell(grid, p.drop_first()) == spell(grid, p).drop_first(),
{
    assert(spell(grid, p.drop_first()) =~= spell(grid, p).drop_first());
}

impl Board {
    /// The moving state of one rooted search: the visited flags mirror the
    /// path's cells, the path is a valid trace, and everything collected so
    /// far is a reported word.
    spec fn search_inv(self, visited: Seq<bool>, w: Word, lex: Lexicon, res: BoardResult) -> bool {
        &&& visited.len() == self.dim_spec() * self.dim_spec()
        &&& (forall|r: int, c: int|
            0 <= r < self.dim_spec() && 0 <= c < self.dim_spec() ==> (visited[cell_index(
                self.dim_spec(),
                r,
                c,
            )] <==> #[trigger] path_has(w, r, c)))
        &&& traces_on(w, self.grid())
        &&& count_true(visited) == w.path_seq().len()
        &&& res.unique_texts()
        &&& all_reported(res, self.grid(), lex)
    }

    /// One step of the depth-first search: visit `(i, j)`, record the
    /// accumulated text if it is a reportable word, recurse into unvisited
    /// neighbors while the text is a live prefix, then backtrack, restoring
    /// the path and the visited flags exactly. Besides soundness, the last
    /// clause states completeness: every reportable word reachable by a
    /// legal continuation through `(i, j)` is collected.
    #[verifier::loop_isolation(false)]
    #[verifier::rlimit(100)]
    fn find_words_util(
        &self,
        visited: &mut Vec<bool>,
        i: usize,
        j: usize,
        w: &mut Word,
        d: &Lexicon,
        res: &mut BoardResult,
    )
        requires
            self.wf(),
            d.wf(),
            self.search_inv(old(visited)@, *old(w), *d, *old(res)),
            i < self.dim_spec(),
            j < self.dim_spec(),
            !old(visited)@[cell_index(self.dim_spec(), i as int, j as int)],
            old(w).path_seq().len() > 0 ==> adjacent(old(w).path_seq().last(), (i, j)),
        ensures
            final(visited)@ == old(visited)@,
            final(w).text_seq() == old(w).text_seq(),
            final(w).path_seq() == old(w).path_seq(),
            self.search_inv(final(visited)@, *final(w), *d, *final(res)),
            old(res).items().is_prefix_of(final(res).items()),
            forall|p: Seq<(usize, usize)>|
                (#[trigger] continuation_ok(self.grid(), old(w).path_seq(), p)) && p[0] == (i, j)
                    && d.contains_word(old(w).text_seq() + spell(self.grid(), p)) && old(
                    w,
                ).text_seq().len() + p.len() > 2 ==> has_text(
                    *final(res),
                    old(w).text_seq() + spell(self.grid(), p),
                ),
        decreases self.dim_spec() * self.dim_spec() - old(w).path_seq().len(),
    {
        let ghost v0 = old(visited)@;
        let ghost w0 = *old(w);
        let ghost res0 = *old(res);
        let dimu = self.dim;
        proof {
            assert(0 <= (i as int) * self.dim_spec() + (j as int)
                && (i as int) * self.dim_spec() + (j as int) < self.dim_spec() * self.dim_spec())
                by (nonlinear_arith)
                requires
                    0 <= i as int,
                    (i as int) < self.dim_spec(),
                    0 <= j as int,
                    (j as int) < self.dim_spec(),
            ;
        }
        let idx = i * dimu + j;
        let ch = self.at(i, j);
        visited.set(idx, true);
        w.push(ch, (i, j));
        let ghost v1 = visited@;
        proof {
            assert(v1 == v0.update(idx as int, true));
            lemma_count_true_update(v0, idx as int, true);
            assert(w.path_seq() == w0.path_seq().push((i, j)));
            assert(w.text_seq() == w0.text_seq().push(ch));
            assert(!path_has(w0, i as int, j as int));
            assert forall|k: int| 0 <= k < w0.path_seq().len() implies w0.path_seq()[k] != (
            i,
            j,
            ) by {
                if w0.path_seq()[k] == (i, j) {
                    assert(w0.path_seq().contains((i, j)));
                }
            }
            assert forall|r: int, c: int|
                0 <= r < self.dim_spec() && 0 <= c < self.dim_spec() implies (visited@[cell_index(
                self.dim_spec(),
                r,
                c,
            )] <==> #[trigger] path_has(*w, r, c)) by {
                let dim = self.dim_spec();
                if r == i as int && c == j as int {
                    assert(w.path_seq()[w0.path_seq().len() as int] == (i, j));
                    assert(path_has(*w, r, c));
                    assert(visited@[cell_index(dim, r, c)]);
                } else {
                    assert(0 <= cell_index(dim, r, c) && cell_index(dim, r, c) < dim * dim
                        && cell_index(dim, r, c) != cell_index(dim, i as int, j as int))
                        by (nonlinear_arith)
                        requires
                            0 <= r < dim,
                            0 <= c < dim,
                            0 <= i as int,
                            (i as int) < dim,
                            0 <= j as int,
                            (j as int) < dim,
                            !(r == i as int && c == j as int),
                    ;
                    assert(visited@[cell_index(dim, r, c)] == v0[cell_index(dim, r, c)]);
                    let p = ((r as usize), (c as usize));
                    if path_has(*w, r, c) {
                        let k = choose|k: int| 0 <= k < w.path_seq().len() && w.path_seq()[k] == p;
                        assert(k < w0.path_seq().len());
                        assert(w0.path_seq().contains(p));
                    }
                    if path_has(w0, r, c) {
                        let k = choose|k: int|
                            0 <= k < w0.path_seq().len() && w0.path_seq()[k] == p;
                        assert(w.path_seq()[k] == p);
                    }
                    assert(path_has(*w, r, c) == path_has(w0, r, c));
                }
            }
            assert(w.path_seq().last() == (i, j));
            assert forall|k: int, l: int|
                0 <= k < l < w.path_seq().len() implies w.path_seq()[k] != w.path_seq()[l] by {
                if l < w0.path_seq().len() {
                    assert(w0.path_seq()[k] != w0.path_seq()[l]);
                } else {
                    assert(w.path_seq()[l] == (i, j));
                    assert(w.path_seq()[k] == w0.path_seq()[k]);
                }
            }
            assert forall|k: int|
                0 <= k < w.path_seq().len() - 1 implies adjacent(
                #[trigger] w.path_seq()[k],
                w.path_seq()[k + 1],
            ) by {
                if k + 1 < w0.path_seq().len() {
                    assert(adjacent(w0.path_seq()[k], w0.path_seq()[k + 1]));
                } else {
                    assert(w.path_seq()[k] == w0.path_seq().last());
                    assert(w.path_seq()[k + 1] == (i, j));
                }
            }
            assert(traces_on(*w, self.grid()));
            assert(self.search_inv(visited@, *w, *d, *res));
        }
        let ghost w1 = *w;
        if d.is_word(w.text()) {
            if w.len() > 2 {
                let wc = copy_word(w);
                let ghost resb = *res;
                res.add(wc);
                proof {
                    if exists|k: int|
                        0 <= k < resb.items().len() && (#[trigger] resb.items()[k]).text_seq()
                            == wc.text_seq() {
                        assert(res.items() == resb.items());
                    } else {
                        assert(res.items() == resb.items().push(wc));
                        assert forall|k: int, l: int|
                            0 <= k < l < res.items().len() implies (
                        #[trigger] res.items()[k]).text_seq() != (
                        #[trigger] res.items()[l]).text_seq() by {
                            if l < resb.items().len() {
                                assert(resb.unique_texts());
                            } else {
                                assert(res.items()[l] == wc);
                                assert(res.items()[k] == resb.items()[k]);
                            }
                        }
                        assert forall|k: int| 0 <= k < res.items().len() implies (traces_on(
                            #[trigger] res.items()[k],
                            self.grid(),
                        ) && res.items()[k].text_seq().len() > 2 && d.contains_word(
                            res.items()[k].text_seq(),
                        )) by {
                            if k < resb.items().len() {
                                assert(all_reported(resb, self.grid(), *d));
                                assert(traces_on(resb.items()[k], self.grid()));
                            } else {
                                assert(res.items()[k] == wc);
                            }
                        }
                    }
                    assert(resb.items() =~= res.items().subrange(0, resb.items().len() as int));
                    assert(self.search_inv(visited@, *w, *d, *res));
                    assert(has_text(*res, wc.text_seq())) by {
                        if exists|k: int|
                            0 <= k < resb.items().len() && (
                            #[trigger] resb.items()[k]).text_seq() == wc.text_seq() {
                            let k = choose|k: int|
                                0 <= k < resb.items().len() && (
                                #[trigger] resb.items()[k]).text_seq() == wc.text_seq();
                            assert(res.items()[k].text_seq() == wc.text_seq());
                        } else {
                            assert(res.items()[res.items().len() - 1].text_seq()
                                == wc.text_seq());
                        }
                    }
                }
            }
        }
        let ghost res1 = *res;
        proof {
            assert(res0.items().is_prefix_of(res1.items())) by {
                assert(res0.items() =~= res1.items().subrange(0, res0.items().len() as int));
            }
            assert((d.contains_word(w1.text_seq()) && w1.text_seq().len() > 2) ==> has_text(
                *res,
                w1.text_seq(),
            ));
        }
        let r_lo = if i == 0 {
            0
        } else {
            i - 1
        };
        let r_hi = if i == dimu - 1 {
            dimu - 1
        } else {
            i + 1
        };
        let c_lo = if j == 0 {
            0
        } else {
            j - 1
        };
        let c_hi = if j == dimu - 1 {
            dimu - 1
        } else {
            j + 1
        };
        proof {
            assert forall|p: Seq<(usize, usize)>|
                (#[trigger] continuation_ok(self.grid(), w0.path_seq(), p)) && p[0] == (i, j)
                    && d.contains_word(w0.text_seq() + spell(self.grid(), p))
                    && w0.text_seq().len() + p.len() > 2 && (p.len() > 1 ==> (p[1].0 as int)
                    < r_lo as int) implies has_text(
                *res,
                w0.text_seq() + spell(self.grid(), p),
            ) by {
                if p.len() == 1 {
                    assert(spell(self.grid(), p) =~= seq![self.grid()[i as int][j as int]]);
                    assert(w0.text_seq() + spell(self.grid(), p) =~= w1.text_seq());
                } else {
                    assert(adjacent(p[0], p[1]));
                    assert(false);
                }
            }
        }
        let mut r = r_lo;
        while r <= r_hi
            invariant
                self.wf(),
                d.wf(),
                dimu as int == self.dim_spec(),
                (i as int) < self.dim_spec(),
                (j as int) < self.dim_spec(),
                r_lo <= r,
                (i as int) - 1 <= r_lo as int,
                (r_hi as int) <= i as int + 1,
                (r_hi as int) < self.dim_spec(),
                (j as int) - 1 <= c_lo as int,
                (c_hi as int) <= j as int + 1,
                (c_hi as int) < self.dim_spec(),
                visited@ == v1,
                w.text_seq() == w1.text_seq(),
                w.path_seq() == w1.path_seq(),
                w.path_seq().len() == w0.path_seq().len() + 1,
                w.path_seq().len() == old(w).path_seq().len() + 1,
                w.path_seq().last() == (i, j),
                self.search_inv(visited@, *w, *d, *res),
                res1.items().is_prefix_of(res.items()),
                forall|p: Seq<(usize, usize)>|
                    (#[trigger] continuation_ok(self.grid(), w0.path_seq(), p)) && p[0] == (i, j)
                        && d.contains_word(w0.text_seq() + spell(self.grid(), p))
                        && w0.text_seq().len() + p.len() > 2 && (p.len() > 1 ==> (p[1].0 as int)
                        < r as int) ==> has_text(*res, w0.text_seq() + spell(self.grid(), p)),
            decreases r_hi + 1 - r,
        {
            let mut c = c_lo;
            proof {
                assert forall|p: Seq<(usize, usize)>|
                    (#[trigger] continuation_ok(self.grid(), w0.path_seq(), p)) && p[0] == (
                    i,
                    j,
                ) && d.contains_word(w0.text_seq() + spell(self.grid(), p))
                    && w0.text_seq().len() + p.len() > 2 && (p.len() > 1 ==> ((
                p[1].0 as int) < r as int || ((p[1].0 as int) == r as int && (p[1].1 as int)
                    < c_lo as int))) implies has_text(
                    *res,
                    w0.text_seq() + spell(self.grid(), p),
                ) by {
                    if p.len() > 1 && !((p[1].0 as int) < r as int) {
                        assert(adjacent(p[0], p[1]));
                        assert(false);
                    }
                }
            }
            while c <= c_hi
                invariant
                    self.wf(),
                    d.wf(),
                    dimu as int == self.dim_spec(),
                    (i as int) < self.dim_spec(),
                    (j as int) < self.dim_spec(),
                    r_lo <= r,
                    r <= r_hi,
                    (i as int) - 1 <= r_lo as int,
                    (r_hi as int) <= i as int + 1,
                    (r_hi as int) < self.dim_spec(),
                    c_lo <= c,
                    (j as int) - 1 <= c_lo as int,
                    (c_hi as int) <= j as int + 1,
                    (c_hi as int) < self.dim_spec(),
                    visited@ == v1,
                    w.text_seq() == w1.text_seq(),
                    w.path_seq() == w1.path_seq(),
                    w.path_seq().len() == w0.path_seq().len() + 1,
                    w.path_seq().len() == old(w).path_seq().len() + 1,
                    w.path_seq().last() == (i, j),
                    self.search_inv(visited@, *w, *d, *res),
                    res1.items().is_prefix_of(res.items()),
                    forall|p: Seq<(usize, usize)>|
                        (#[trigger] continuation_ok(self.grid(), w0.path_seq(), p)) && p[0]
                            == (i, j) && d.contains_word(
                            w0.text_seq() + spell(self.grid(), p),
                        ) && w0.text_seq().len() + p.len() > 2 && (p.len() > 1 ==> ((
                        p[1].0 as int) < r as int || ((p[1].0 as int) == r as int && (
                        p[1].1 as int) < c as int))) ==> has_text(
                            *res,
                            w0.text_seq() + spell(self.grid(), p),
                        ),
                decreases c_hi + 1 - c,
            {
                let ghost res_head = *res;
                proof {
                    assert(0 <= (r as int) * self.dim_spec() + (c as int) && (r as int)
                        * self.dim_spec() + (c as int) < self.dim_spec() * self.dim_spec())
                        by (nonlinear_arith)
                        requires
                            0 <= r as int,
                            (r as int) < self.dim_spec(),
                            0 <= c as int,
                            (c as int) < self.dim_spec(),
                    ;
                }
                let idx2 = r * dimu + c;
                if !visited[idx2] {
                    if d.is_prefix(w.text()) {
                        proof {
                            assert(!visited@[cell_index(
                                self.dim_spec(),
                                r as int,
                                c as int,
                            )]);
                            assert(w.path_seq()[w.path_seq().len() - 1] == (i, j));
                            assert(path_has(*w, i as int, j as int)) by {
                                assert(w.path_seq().contains((i, j)));
                            }
                            assert(visited@[cell_index(
                                self.dim_spec(),
                                i as int,
                                j as int,
                            )]);
                            assert((r, c) != (i, j));
                            assert(adjacent(w.path_seq().last(), (r, c)));
                            lemma_count_true_bounds(visited@);
                        }
                        let ghost res_pre = *res;
                        self.find_words_util(visited, r, c, w, d, res);
                        proof {
                            lemma_prefix_trans(res1.items(), res_pre.items(), res.items());
                        }
                    }
                }
                proof {
                    let dim = self.dim_spec();
                    assert(res_head.items().is_prefix_of(res.items())) by {
                        assert(res_head.items() =~= res.items().subrange(
                            0,
                            res_head.items().len() as int,
                        ));
                    }
                    assert forall|p: Seq<(usize, usize)>|
                        (#[trigger] continuation_ok(self.grid(), w0.path_seq(), p)) && p[0]
                            == (i, j) && d.contains_word(
                            w0.text_seq() + spell(self.grid(), p),
                        ) && w0.text_seq().len() + p.len() > 2 && (p.len() > 1 ==> ((
                        p[1].0 as int) < r as int || ((p[1].0 as int) == r as int && (
                        p[1].1 as int) < c as int + 1))) implies has_text(
                        *res,
                        w0.text_seq() + spell(self.grid(), p),
                    ) by {
                        let full = w0.text_seq() + spell(self.grid(), p);
                        if p.len() == 1 || ((p[1].0 as int) < r as int || ((p[1].0 as int)
                            == r as int && (p[1].1 as int) < c as int)) {
                            lemma_has_text_mono(res_head, *res, full);
                        } else {
                            assert((p[1].0 as int) == r as int && (p[1].1 as int)
                                == c as int);
                            assert(p[1] == (r, c));
                            assert(spell(self.grid(), p).len() == p.len());
                            assert(spell(self.grid(), p)[0] == self.grid()[i as int][
                                j as int]);
                            assert(w1.text_seq() == w0.text_seq().push(
                                spell(self.grid(), p)[0],
                            ));
                            lemma_text_shift(w0.text_seq(), spell(self.grid(), p));
                            lemma_spell_shift(self.grid(), p);
                            if visited@[cell_index(dim, r as int, c as int)] {
                                assert(path_has(*w, r as int, c as int));
                                assert(w.path_seq().contains(p[1]));
                                let m = choose|m: int|
                                    0 <= m < w.path_seq().len() && w.path_seq()[m] == p[1];
                                if m < w0.path_seq().len() {
                                    assert(w0.path_seq()[m] == p[1]);
                                    assert(w0.path_seq().contains(p[1]));
                                    assert(false);
                                } else {
                                    assert(p[1] == (i, j));
                                    assert(p[0] != p[1]);
                                    assert(false);
                                }
                            } else if !d.contains_prefix(w1.text_seq()) {
                                assert(full == w1.text_seq() + spell(
                                    self.grid(),
                                    p,
                                ).drop_first());
                                assert(w1.text_seq().is_prefix_of(full)) by {
                                    assert(w1.text_seq() =~= full.subrange(
                                        0,
                                        w1.text_seq().len() as int,
                                    ));
                                }
                                crate::lexicon::lemma_word_prefix_live(
                                    *d,
                                    w1.text_seq(),
                                    full,
                                );
                                assert(false);
                            } else {
                                let q = p.drop_first();
                                assert(q.len() == p.len() - 1);
                                assert forall|k: int|
                                    0 <= k < q.len() implies (#[trigger] q[k]).0
                                    < self.grid().len() && q[k].1 < self.grid().len() by {
                                    assert(q[k] == p[k + 1]);
                                }
                                assert forall|k: int, l: int|
                                    0 <= k < l < q.len() implies q[k] != q[l] by {
                                    assert(q[k] == p[k + 1] && q[l] == p[l + 1]);
                                }
                                assert forall|k: int|
                                    0 <= k < q.len() implies !w1.path_seq().contains(
                                    #[trigger] q[k]) by {
                                    assert(q[k] == p[k + 1]);
                                    assert(!w0.path_seq().contains(p[k + 1]));
                                    assert(p[k + 1] != p[0]);
                                    if w1.path_seq().contains(q[k]) {
                                        let m = choose|m: int|
                                            0 <= m < w1.path_seq().len()
                                                && w1.path_seq()[m] == q[k];
                                        if m < w0.path_seq().len() {
                                            assert(w0.path_seq()[m] == q[k]);
                                            assert(w0.path_seq().contains(q[k]));
                                        } else {
                                            assert(q[k] == (i, j));
                                        }
                                        assert(false);
                                    }
                                }
                                assert forall|k: int|
                                    0 <= k < q.len() - 1 implies adjacent(
                                    #[trigger] q[k],
                                    q[k + 1],
                                ) by {
                                    assert(q[k] == p[k + 1] && q[k + 1] == p[k + 2]);
                                    assert(adjacent(p[k + 1], p[k + 2]));
                                }
                                assert(w1.path_seq().last() == (i, j));
                                assert(adjacent(p[0], p[1]));
                                assert(adjacent(w1.path_seq().last(), q[0]));
                                assert(continuation_ok(self.grid(), w1.path_seq(), q));
                                assert(continuation_ok(self.grid(), w.path_seq(), q));
                                assert(q[0] == (r, c));
                                assert(full == w1.text_seq() + spell(self.grid(), q));
                                assert(d.contains_word(w1.text_seq() + spell(
                                    self.grid(),
                                    q,
                                )));
                                assert(w1.text_seq().len() + q.len() > 2);
                                assert(has_text(*res, full));
                            }
                        }
                    }
                }
                c = c + 1;
            }
            proof {
                assert forall|p: Seq<(usize, usize)>|
                    (#[trigger] continuation_ok(self.grid(), w0.path_seq(), p)) && p[0] == (i, j)
                        && d.contains_word(w0.text_seq() + spell(self.grid(), p))
                        && w0.text_seq().len() + p.len() > 2 && (p.len() > 1 ==> (p[1].0 as int)
                        < r as int + 1) implies has_text(
                    *res,
                    w0.text_seq() + spell(self.grid(), p),
                ) by {
                    if p.len() > 1 && !((p[1].0 as int) < r as int) {
                        assert((p[1].0 as int) == r as int);
                        assert(adjacent(p[0], p[1]));
                        assert((p[1].1 as int) < self.dim_spec());
                        assert((p[1].1 as int) <= c_hi as int);
                    }
                }
            }
            r = r + 1;
        }
        let popped = w.pop();
        visited.set(idx, false);
        proof {
            assert(popped is Some);
            assert(w1.text_seq().drop_last() =~= w0.text_seq());
            assert(w1.path_seq().drop_last() =~= w0.path_seq());
            assert(visited@ =~= v0);
            assert(self.search_inv(visited@, *w, *d, *res)) by {
                assert(count_true(v0) == w0.path_seq().len());
                assert forall|rr: int, cc: int|
                    0 <= rr < self.dim_spec() && 0 <= cc < self.dim_spec() implies (
                visited@[cell_index(self.dim_spec(), rr, cc)] <==> #[trigger] path_has(
                    *w,
                    rr,
                    cc,
                )) by {
                    assert(v0[cell_index(self.dim_spec(), rr, cc)] <==> path_has(w0, rr, cc));
                }
            }
            lemma_prefix_trans(res0.items(), res1.items(), res.items());
            assert forall|p: Seq<(usize, usize)>|
                (#[trigger] continuation_ok(self.grid(), w0.path_seq(), p)) && p[0] == (i, j)
                    && d.contains_word(w0.text_seq() + spell(self.grid(), p))
                    && w0.text_seq().len() + p.len() > 2 implies has_text(
                *res,
                w0.text_seq() + spell(self.grid(), p),
            ) by {
                if p.len() > 1 {
                    assert(adjacent(p[0], p[1]));
                    assert((p[1].0 as int) < self.dim_spec());
                    assert((p[1].0 as int) <= r_hi as int);
                }
            }
        }
    }

    /// Runs the search from every cell of the grid into one shared result:
    /// every word collected is a dictionary word of length over two whose
    /// recorded path traces it on this grid, and no text repeats.
    #[verifier::loop_isolation(false)]
    pub fn find_words(&self, dict: &Lexicon) -> (res: BoardResult)
        requires
            self.wf(),
            dict.wf(),
        ensures
            res.unique_texts(),
            all_reported(res, self.grid(), *dict),
            forall|t: Seq<char>|
                dict.contains_word(t) && t.len() > 2 && #[trigger] traceable(self.grid(), t)
                    ==> has_text(res, t),
    {
        let dimu = self.dim;
        proof {
            assert(self.dim_spec() * self.dim_spec() <= usize::MAX);
            assert(self.dim_spec() <= self.dim_spec() * self.dim_spec()) by (nonlinear_arith)
                requires
                    0 <= self.dim_spec(),
            ;
        }
        let total = dimu * dimu;
        let mut visited: Vec<bool> = Vec::new();
        while visited.len() < total
            invariant
                visited@.len() <= total,
                forall|k: int| 0 <= k < visited@.len() ==> !visited@[k],
            decreases total - visited@.len(),
        {
            visited.push(false);
        }
        let mut result = BoardResult::new();
        let mut i: usize = 0;
        while i < dimu
            invariant
                self.wf(),
                dict.wf(),
                i <= dimu,
                dimu as int == self.dim_spec(),
                visited@.len() == self.dim_spec() * self.dim_spec(),
                forall|k: int| 0 <= k < visited@.len() ==> !visited@[k],
                result.unique_texts(),
                all_reported(result, self.grid(), *dict),
                forall|p: Seq<(usize, usize)>|
                    (#[trigger] continuation_ok(self.grid(), Seq::empty(), p))
                        && dict.contains_word(spell(self.grid(), p)) && p.len() > 2 && (
                    p[0].0 as int) < i as int ==> has_text(result, spell(self.grid(), p)),
            decreases dimu - i,
        {
            let mut j: usize = 0;
            while j < dimu
                invariant
                    self.wf(),
                    dict.wf(),
                    i < dimu,
                    j <= dimu,
                    dimu as int == self.dim_spec(),
                    visited@.len() == self.dim_spec() * self.dim_spec(),
                    forall|k: int| 0 <= k < visited@.len() ==> !visited@[k],
                    result.unique_texts(),
                    all_reported(result, self.grid(), *dict),
                    forall|p: Seq<(usize, usize)>|
                        (#[trigger] continuation_ok(self.grid(), Seq::empty(), p))
                            && dict.contains_word(spell(self.grid(), p)) && p.len() > 2 && ((
                        p[0].0 as int) < i as int || ((p[0].0 as int) == i as int && (
                        p[0].1 as int) < j as int)) ==> has_text(result, spell(self.grid(), p)),
                decreases dimu - j,
            {
                let ghost res_head = result;
                let mut w = Word::new();
                proof {
                    lemma_count_true_all_false(visited@);
                    assert forall|r: int, c: int|
                        0 <= r < self.dim_spec() && 0 <= c < self.dim_spec() implies (
                    visited@[cell_index(self.dim_spec(), r, c)] <==> #[trigger] path_has(
                        w,
                        r,
                        c,
                    )) by {
                        assert(0 <= cell_index(self.dim_spec(), r, c) && cell_index(
                            self.dim_spec(),
                            r,
                            c,
                        ) < self.dim_spec() * self.dim_spec()) by (nonlinear_arith)
                            requires
                                0 <= r < self.dim_spec(),
                                0 <= c < self.dim_spec(),
                        ;
                        assert(!visited@[cell_index(self.dim_spec(), r, c)]);
                        assert(!path_has(w, r, c));
                    }
                    assert(traces_on(w, self.grid()));
                    assert(0 <= cell_index(self.dim_spec(), i as int, j as int) && cell_index(
                        self.dim_spec(),
                        i as int,
                        j as int,
                    ) < self.dim_spec() * self.dim_spec()) by (nonlinear_arith)
                        requires
                            0 <= i as int,
                            (i as int) < self.dim_spec(),
                            0 <= j as int,
                            (j as int) < self.dim_spec(),
                    ;
                    assert(self.search_inv(visited@, w, *dict, result));
                }
                self.find_words_util(&mut visited, i, j, &mut w, dict, &mut result);
                proof {
                    assert(w.path_seq() =~= Seq::<(usize, usize)>::empty());
                    assert(w.text_seq() =~= Seq::<char>::empty());
                    assert forall|p: Seq<(usize, usize)>|
                        (#[trigger] continuation_ok(self.grid(), Seq::empty(), p))
                            && dict.contains_word(spell(self.grid(), p)) && p.len() > 2 && ((
                    p[0].0 as int) < i as int || ((p[0].0 as int) == i as int && (p[0].1 as int)
                        < j as int + 1)) implies has_text(result, spell(self.grid(), p)) by {
                        if (p[0].0 as int) == i as int && (p[0].1 as int) == j as int {
                            assert(p[0] == (i, j));
                            assert(continuation_ok(self.grid(), w.path_seq(), p));
                            assert(w.text_seq() + spell(self.grid(), p) =~= spell(
                                self.grid(),
                                p,
                            ));
                            assert(w.text_seq().len() + p.len() > 2);
                            assert(has_text(result, w.text_seq() + spell(self.grid(), p)));
                        } else {
                            lemma_has_text_mono(res_head, result, spell(self.grid(), p));
                        }
                    }
                }
                j = j + 1;
            }
            proof {
                assert forall|p: Seq<(usize, usize)>|
                    (#[trigger] continuation_ok(self.grid(), Seq::empty(), p))
                        && dict.contains_word(spell(self.grid(), p)) && p.len() > 2 && (
                p[0].0 as int) < i as int + 1 implies has_text(result, spell(self.grid(), p)) by {
                    if (p[0].0 as int) == i as int {
                        assert((p[0].1 as int) < self.dim_spec());
                    }
                }
            }
            i = i + 1;
        }
        proof {
            assert forall|t: Seq<char>|
                dict.contains_word(t) && t.len() > 2 && #[trigger] traceable(self.grid(), t)
                    implies has_text(result, t) by {
                let p = choose|p: Seq<(usize, usize)>|
                    continuation_ok(self.grid(), Seq::empty(), p) && spell(self.grid(), p) == t;
                assert(spell(self.grid(), p).len() == p.len());
                assert((p[0].0 as int) < self.dim_spec());
                assert(has_text(result, spell(self.grid(), p)));
            }
        }
        result
    }
}

/// The search reports a text if and only if it is a dictionary word longer
/// than two characters that can be traced on the grid. Membership in the
/// result is thereby a function of the grid and the dictionary alone, so
/// repeated searches report the same words.
pub proof fn lemma_search_reports_exactly(b: Board, lex: Lexicon, res: BoardResult)
    requires
        all_reported(res, b.grid(), lex),
        forall|t: Seq<char>|
            lex.contains_word(t) && t.len() > 2 && #[trigger] traceable(b.grid(), t)
                ==> has_text(res, t),
    ensures
        forall|t: Seq<char>|
            #[trigger] has_text(res, t) <==> (lex.contains_word(t) && t.len() > 2 && traceable(
                b.grid(),
                t,
            )),
{
    assert forall|t: Seq<char>| #[trigger] has_text(res, t) implies (lex.contains_word(t)
        && t.len() > 2 && traceable(b.grid(), t)) by {
        let k = choose|k: int|
            0 <= k < res.items().len() && (#[trigger] res.items()[k]).text_seq() == t;
        let wd = res.items()[k];
        assert(traces_on(wd, b.grid()));
        let p = wd.path_seq();
        assert(p.len() == t.len());
        assert(spell(b.grid(), p) =~= t);
        assert forall|m: int|
            0 <= m < p.len() implies !Seq::<(usize, usize)>::empty().contains(
            #[trigger] p[m]) by {
        }
        assert(continuation_ok(b.grid(), Seq::empty(), p));
        assert(continuation_ok(b.grid(), Seq::empty(), p) && spell(b.grid(), p) == t);
        assert(traceable(b.grid(), t));
    }
}

} // verus!
