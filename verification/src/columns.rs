use vstd::prelude::*;

verus! {

/// The views of a vector of vectors.
pub open spec fn rows_view<T>(m: Seq<Vec<T>>) -> Seq<Seq<T>> {
    Seq::new(m.len(), |i: int| m[i]@)
}

/// One view per vector, the view of the vector at the same position.
pub proof fn law_rows_view<T>(m: Seq<Vec<T>>)
    ensures
        rows_view(m).len() == m.len(),
        forall|i: int| 0 <= i < m.len() ==> #[trigger] rows_view(m)[i] == m[i]@,
{
}

/// Every index of `procedure` points into a sequence of length `n`.
pub open spec fn procedure_fits(procedure: Seq<usize>, n: nat) -> bool {
    forall|k: int| 0 <= k < procedure.len() ==> procedure[k] < n
}

/// A procedure fits a length exactly when each of its indices is below it.
pub proof fn law_procedure_fits(procedure: Seq<usize>, n: nat)
    ensures
        procedure_fits(procedure, n) == (forall|k: int|
            0 <= k < procedure.len() ==> #[trigger] procedure[k] < n),
        procedure_fits(Seq::<usize>::empty(), n),
{
}

/// The items that `procedure` picks, in its order; an empty procedure keeps
/// the items as they are.
pub open spec fn select<A>(items: Seq<A>, procedure: Seq<usize>) -> Seq<A> {
    if procedure.len() == 0 {
        items
    } else {
        Seq::new(procedure.len(), |k: int| items[procedure[k] as int])
    }
}

/// The length of the shortest column, and 0 when there is no column.
pub open spec fn min_len<T>(cols: Seq<Seq<T>>) -> nat
    decreases cols.len(),
{
    if cols.len() == 0 {
        0
    } else if cols.len() == 1 {
        cols[0].len()
    } else {
        let rest = min_len(cols.drop_last());
        if cols.last().len() < rest {
            cols.last().len()
        } else {
            rest
        }
    }
}

/// The columns cut to the length of the shortest one, each keeping its last
/// items, and read row by row: row `i` holds the `i`-th kept item of every
/// column, in the order of the columns.
pub open spec fn aligned<T>(cols: Seq<Seq<T>>) -> Seq<Seq<T>> {
    let m = min_len(cols);
    Seq::new(m, |i: int| Seq::new(cols.len(), |j: int| cols[j][cols[j].len() - m + i]))
}

/// `min_len` bounds the length of every column and, when there is a column,
/// is the length of one of them.
pub proof fn lemma_min_len<T>(cols: Seq<Seq<T>>)
    ensures
        forall|j: int| 0 <= j < cols.len() ==> min_len(cols) <= cols[j].len(),
        cols.len() > 0 ==> exists|j: int| 0 <= j < cols.len() && cols[j].len() == min_len(cols),
    decreases cols.len(),
{
    if cols.len() > 1 {
        let p = cols.drop_last();
        lemma_min_len(p);
        assert forall|j: int| 0 <= j < cols.len() implies min_len(cols) <= cols[j].len() by {
            if j < cols.len() - 1 {
                assert(cols[j] == p[j]);
            }
        }
        if min_len(cols) == cols.last().len() {
            assert(cols[cols.len() - 1].len() == min_len(cols));
        } else {
            let j = choose|j: int| 0 <= j < p.len() && p[j].len() == min_len(p);
            assert(cols[j].len() == min_len(cols));
        }
    } else if cols.len() == 1 {
        assert(cols[0].len() == min_len(cols));
    }
}

/// An empty procedure keeps the arguments as they are, and so does the
/// procedure that names every position once, in order.
pub proof fn law_select_identity<A>(items: Seq<A>)
    ensures
        select(items, Seq::<usize>::empty()) == items,
        items.len() <= usize::MAX ==> select(
            items,
            Seq::new(items.len(), |k: int| k as usize),
        ) == items,
{
    if items.len() > 0 && items.len() <= usize::MAX {
        assert(select(items, Seq::new(items.len(), |k: int| k as usize)) =~= items);
    }
}

/// A non-empty procedure gathers: item `k` of the result is the item at
/// position `procedure[k]`, and there are as many items as the procedure has
/// entries.
pub proof fn law_select_picks<A>(items: Seq<A>, procedure: Seq<usize>)
    requires
        procedure.len() > 0,
        procedure_fits(procedure, items.len()),
    ensures
        select(items, procedure).len() == procedure.len(),
        forall|k: int|
            0 <= k < procedure.len() ==> #[trigger] select(items, procedure)[k]
                == items[procedure[k] as int],
{
}

/// The rows of the used signals: there are as many as the shortest signal has
/// items; row `i` holds, for every signal `j`, its item at `i` counted from the
/// start of its last `m` items, where `m` is the number of rows.
pub proof fn law_aligned_rows<T>(cols: Seq<Seq<T>>)
    ensures
        forall|j: int| 0 <= j < cols.len() ==> aligned(cols).len() <= #[trigger] cols[j].len(),
        cols.len() > 0 ==> exists|j: int|
            0 <= j < cols.len() && #[trigger] cols[j].len() == aligned(cols).len(),
        cols.len() == 0 ==> aligned(cols).len() == 0,
        forall|i: int|
            0 <= i < aligned(cols).len() ==> #[trigger] aligned(cols)[i].len() == cols.len(),
        forall|i: int, j: int|
            0 <= i < aligned(cols).len() && 0 <= j < cols.len() ==> #[trigger] aligned(cols)[i][j]
                == cols[j][cols[j].len() - aligned(cols).len() + i],
{
    lemma_min_len(cols);
}

/// The signals a signal uses, read row by row, have as many rows as the
/// shortest of them has items, and every row has one item of each.
pub proof fn law_aligned_shape<T>(cols: Seq<Seq<T>>)
    ensures
        aligned(cols).len() == min_len(cols),
        forall|i: int| 0 <= i < aligned(cols).len() ==> #[trigger] aligned(cols)[i].len() == cols.len(),
        cols.len() == 0 ==> aligned(cols).len() == 0,
{
}

/// A single used signal gives one row per item, holding that item.
pub proof fn law_aligned_single<T>(col: Seq<T>)
    ensures
        aligned(seq![col]) == Seq::new(col.len(), |i: int| seq![col[i]]),
{
    let cols = seq![col];
    assert(min_len(cols) == col.len());
    assert forall|i: int| 0 <= i < col.len() implies aligned(cols)[i] == seq![col[i]] by {
        assert(aligned(cols)[i] =~= seq![col[i]]);
    }
    assert(aligned(cols) =~= Seq::new(col.len(), |i: int| seq![col[i]]));
}

/// The used signals stay aligned at their latest point: when there is a row,
/// the last row holds the last item of every used signal.
pub proof fn law_aligned_last_row<T>(cols: Seq<Seq<T>>)
    requires
        min_len(cols) > 0,
    ensures
        aligned(cols).last() == Seq::new(cols.len(), |j: int| cols[j].last()),
{
    assert(aligned(cols).last() =~= Seq::new(cols.len(), |j: int| cols[j].last()));
}

/// Used signals of one length are read as a plain transpose: row `i`,
/// position `j` holds item `i` of signal `j`.
pub proof fn law_aligned_equal_lengths<T>(cols: Seq<Seq<T>>, n: nat)
    requires
        cols.len() > 0,
        forall|j: int| 0 <= j < cols.len() ==> #[trigger] cols[j].len() == n,
    ensures
        aligned(cols) == Seq::new(n, |i: int| Seq::new(cols.len(), |j: int| cols[j][i])),
{
    lemma_min_len(cols);
    let j0 = choose|j: int| 0 <= j < cols.len() && cols[j].len() == min_len(cols);
    assert(min_len(cols) == n);
    assert forall|i: int| 0 <= i < n implies aligned(cols)[i] == Seq::new(cols.len(), |j: int| cols[j][i]) by {
        assert(aligned(cols)[i] =~= Seq::new(cols.len(), |j: int| cols[j][i]));
    }
    assert(aligned(cols) =~= Seq::new(n, |i: int| Seq::new(cols.len(), |j: int| cols[j][i])));
}

/// Copies a vector.
pub fn copy_vec<T: Copy>(v: &Vec<T>) -> (r: Vec<T>)
    ensures
        r@ == v@,
{
    let mut r: Vec<T> = Vec::new();
    let mut i: usize = 0;
    while i < v.len()
        invariant
            i <= v.len(),
            r@ == v@.take(i as int),
        decreases v.len() - i,
    {
        r.push(v[i]);
        i = i + 1;
        assert(r@ == v@.take(i as int));
    }
    assert(v@.take(v.len() as int) == v@);
    r
}

/// The items that `procedure` picks, in its order; an empty procedure keeps
/// the items as they are.
pub fn select_by_procedure<T: Copy>(items: &Vec<T>, procedure: &Vec<usize>) -> (r: Vec<T>)
    requires
        procedure_fits(procedure@, items.len() as nat),
    ensures
        r@ == select(items@, procedure@),
        procedure.len() == 0 ==> r@ == items@,
        procedure.len() > 0 ==> r.len() == procedure.len(),
        forall|k: int|
            0 <= k < procedure.len() ==> #[trigger] r@[k] == items@[procedure@[k] as int],
{
    if procedure.len() == 0 {
        return copy_vec(items);
    }
    let mut r: Vec<T> = Vec::new();
    let mut k: usize = 0;
    while k < procedure.len()
        invariant
            k <= procedure.len(),
            procedure_fits(procedure@, items.len() as nat),
            r@ == Seq::new(k as nat, |q: int| items@[procedure@[q] as int]),
        decreases procedure.len() - k,
    {
        r.push(items[procedure[k]]);
        k = k + 1;
        assert(r@ =~= Seq::new(k as nat, |q: int| items@[procedure@[q] as int]));
    }
    r
}

/// The positions of the columns that `procedure` picks: the procedure itself,
/// or every position in order when it is empty.
fn chosen_columns(n: usize, procedure: &Vec<usize>) -> (idx: Vec<usize>)
    requires
        procedure_fits(procedure@, n as nat),
    ensures
        procedure_fits(idx@, n as nat),
        procedure.len() == 0 ==> idx@ == Seq::new(n as nat, |k: int| k as usize),
        procedure.len() > 0 ==> idx@ == procedure@,
{
    if procedure.len() > 0 {
        return copy_vec(procedure);
    }
    let mut idx: Vec<usize> = Vec::new();
    let mut j: usize = 0;
    while j < n
        invariant
            j <= n,
            idx@ == Seq::new(j as nat, |k: int| k as usize),
        decreases n - j,
    {
        idx.push(j);
        j = j + 1;
        assert(idx@ =~= Seq::new(j as nat, |k: int| k as usize));
    }
    idx
}

/// The argument rows that a signal receives from the signals it uses: the
/// chosen columns (see `select`), cut to the shortest of them at their
/// start, and read row by row. No column gives no row.
pub fn align_columns<T: Copy>(cols: &Vec<Vec<T>>, procedure: &Vec<usize>) -> (r: Vec<Vec<T>>)
    requires
        procedure_fits(procedure@, cols.len() as nat),
    ensures
        rows_view(r@) == aligned(select(rows_view(cols@), procedure@)),
        procedure.len() == 0 && cols.len() == 0 ==> r.len() == 0,
        procedure@.len() == 0 ==> forall|j: int|
            0 <= j < cols@.len() ==> r.len() <= #[trigger] cols@[j].len(),
        procedure@.len() == 0 ==> forall|i: int|
            0 <= i < r.len() ==> #[trigger] r@[i]@.len() == cols@.len(),
        procedure@.len() == 0 ==> forall|i: int, j: int|
            0 <= i < r.len() && 0 <= j < cols@.len() ==> #[trigger] r@[i]@[j]
                == cols@[j]@[cols@[j].len() - r.len() + i],
        procedure@.len() > 0 ==> forall|j: int|
            0 <= j < procedure@.len() ==> r.len() <= cols@[#[trigger] procedure@[j] as int].len(),
        procedure@.len() > 0 ==> forall|i: int|
            0 <= i < r.len() ==> #[trigger] r@[i]@.len() == procedure@.len(),
        procedure@.len() > 0 ==> forall|i: int, j: int|
            0 <= i < r.len() && 0 <= j < procedure@.len() ==> #[trigger] r@[i]@[j]
                == cols@[procedure@[j] as int]@[cols@[procedure@[j] as int].len() - r.len() + i],
{
    let ghost all = rows_view(cols@);
    let ghost sel = select(all, procedure@);
    let idx = chosen_columns(cols.len(), procedure);
    assert(sel =~= Seq::new(idx.len() as nat, |k: int| all[idx@[k] as int]));
    if idx.len() == 0 {
        let r: Vec<Vec<T>> = Vec::new();
        assert(rows_view(r@) =~= aligned(sel));
        return r;
    }
    let mut m: usize = cols[idx[0]].len();
    let mut k: usize = 1;
    assert(sel.take(1).len() == 1);
    while k < idx.len()
        invariant
            1 <= k <= idx.len(),
            procedure_fits(idx@, cols.len() as nat),
            all == rows_view(cols@),
            sel =~= Seq::new(idx.len() as nat, |q: int| all[idx@[q] as int]),
            m == min_len(sel.take(k as int)),
        decreases idx.len() - k,
    {
        assert(sel.take(k as int + 1).drop_last() == sel.take(k as int));
        let l = cols[idx[k]].len();
        if l < m {
            m = l;
        }
        k = k + 1;
    }
    assert(sel.take(idx.len() as int) == sel);
    proof {
        lemma_min_len(sel);
    }
    let ghost target = aligned(sel);
    let mut r: Vec<Vec<T>> = Vec::new();
    let mut i: usize = 0;
    while i < m
        invariant
            i <= m,
            m == min_len(sel),
            procedure_fits(idx@, cols.len() as nat),
            all == rows_view(cols@),
            sel =~= Seq::new(idx.len() as nat, |q: int| all[idx@[q] as int]),
            forall|j: int| 0 <= j < sel.len() ==> m <= sel[j].len(),
            target == aligned(sel),
            rows_view(r@) == target.take(i as int),
        decreases m - i,
    {
        let mut row: Vec<T> = Vec::new();
        let mut j: usize = 0;
        while j < idx.len()
            invariant
                i < m,
                j <= idx.len(),
                m == min_len(sel),
                procedure_fits(idx@, cols.len() as nat),
                all == rows_view(cols@),
                sel =~= Seq::new(idx.len() as nat, |q: int| all[idx@[q] as int]),
                forall|q: int| 0 <= q < sel.len() ==> m <= sel[q].len(),
                target == aligned(sel),
                row@ == target[i as int].take(j as int),
                rows_view(r@) == target.take(i as int),
            decreases idx.len() - j,
        {
            let c = &cols[idx[j]];
            assert(sel[j as int] == c@);
            row.push(c[c.len() - m + i]);
            j = j + 1;
            assert(row@ =~= target[i as int].take(j as int));
        }
        assert(target[i as int].take(idx.len() as int) == target[i as int]);
        let ghost old_r = r@;
        assert(rows_view(old_r).len() == old_r.len());
        r.push(row);
        assert(r@ == old_r.push(row));
        assert forall|q: int| 0 <= q < i + 1 implies rows_view(r@)[q] == target[q] by {
            if q < i {
                assert(rows_view(old_r)[q] == target.take(i as int)[q]);
            }
        }
        i = i + 1;
        assert(rows_view(r@) =~= target.take(i as int));
    }
    assert(target.take(m as int) == target);
    proof {
        aligned_columns_facts(cols@, procedure@, r@);
    }
    r
}

/// The row facts of `align_columns`, read off `aligned` and `select`.
proof fn aligned_columns_facts<T>(cols: Seq<Vec<T>>, procedure: Seq<usize>, r: Seq<Vec<T>>)
    requires
        procedure_fits(procedure, cols.len()),
        rows_view(r) == aligned(select(rows_view(cols), procedure)),
    ensures
        procedure.len() == 0 ==> forall|j: int|
            0 <= j < cols.len() ==> r.len() <= #[trigger] cols[j].len(),
        procedure.len() == 0 ==> forall|i: int|
            0 <= i < r.len() ==> #[trigger] r[i]@.len() == cols.len(),
        procedure.len() == 0 ==> forall|i: int, j: int|
            0 <= i < r.len() && 0 <= j < cols.len() ==> #[trigger] r[i]@[j]
                == cols[j]@[cols[j].len() - r.len() + i],
        procedure.len() > 0 ==> forall|j: int|
            0 <= j < procedure.len() ==> r.len() <= cols[#[trigger] procedure[j] as int].len(),
        procedure.len() > 0 ==> forall|i: int|
            0 <= i < r.len() ==> #[trigger] r[i]@.len() == procedure.len(),
        procedure.len() > 0 ==> forall|i: int, j: int|
            0 <= i < r.len() && 0 <= j < procedure.len() ==> #[trigger] r[i]@[j]
                == cols[procedure[j] as int]@[cols[procedure[j] as int].len() - r.len() + i],
{
    let all = rows_view(cols);
    let sel = select(all, procedure);
    law_aligned_rows(sel);
    if procedure.len() > 0 {
        law_select_picks(all, procedure);
    }
    assert(rows_view(r).len() == r.len());
    assert(r.len() == aligned(sel).len());
    if procedure.len() == 0 {
        assert forall|j: int| 0 <= j < cols.len() implies r.len() <= #[trigger] cols[j].len() by {
            assert(sel[j] == cols[j]@);
        }
    } else {
        assert forall|j: int| 0 <= j < procedure.len() implies r.len() <= cols[#[trigger] procedure[j] as int].len() by {
            assert(sel[j] == cols[procedure[j] as int]@);
        }
    }
    assert forall|i: int| 0 <= i < r.len() implies #[trigger] r[i]@ == aligned(sel)[i] by {
        assert(rows_view(r)[i] == r[i]@);
    }
}

/// The items of `v` from position `lo` up to, not including, position `hi`.
pub fn copy_range<T: Copy>(v: &Vec<T>, lo: usize, hi: usize) -> (r: Vec<T>)
    requires
        lo <= hi <= v.len(),
    ensures
        r@ == v@.subrange(lo as int, hi as int),
{
    let mut r: Vec<T> = Vec::new();
    let mut i: usize = lo;
    while i < hi
        invariant
            lo <= i <= hi <= v.len(),
            r@ == v@.subrange(lo as int, i as int),
        decreases hi - i,
    {
        r.push(v[i]);
        i = i + 1;
        assert(r@ =~= v@.subrange(lo as int, i as int));
    }
    r
}

/// Every column without its last item.
pub fn drop_last_each<T: Copy>(cols: &Vec<Vec<T>>) -> (r: Vec<Vec<T>>)
    requires
        forall|c: int| 0 <= c < cols.len() ==> cols[c].len() > 0,
    ensures
        r.len() == cols.len(),
        forall|c: int| 0 <= c < cols.len() ==> #[trigger] r[c]@ == cols[c]@.drop_last(),
        forall|c: int| 0 <= c < cols.len() ==> #[trigger] r[c]@.push(cols[c]@.last()) == cols[c]@,
{
    let mut r: Vec<Vec<T>> = Vec::new();
    let mut c: usize = 0;
    while c < cols.len()
        invariant
            c <= cols.len(),
            forall|q: int| 0 <= q < cols.len() ==> cols[q].len() > 0,
            r.len() == c,
            forall|q: int| 0 <= q < c ==> #[trigger] r[q]@ == cols[q]@.drop_last(),
            forall|q: int| 0 <= q < c ==> #[trigger] r[q]@.push(cols[q]@.last()) == cols[q]@,
        decreases cols.len() - c,
    {
        let col = &cols[c];
        let v = copy_range(col, 0, col.len() - 1);
        assert(v@ =~= col@.drop_last());
        assert(v@.push(col@.last()) =~= col@);
        r.push(v);
        c = c + 1;
    }
    r
}

/// The common length of the series in `cols`: that of the first one, and 0
/// when there is none.
pub open spec fn series_len<T>(cols: Seq<Seq<T>>) -> nat {
    if cols.len() == 0 {
        0
    } else {
        cols[0].len()
    }
}

/// Every series in `cols` has the same length.
pub open spec fn is_rectangular<T>(cols: Seq<Seq<T>>) -> bool {
    forall|c: int| 0 <= c < cols.len() ==> #[trigger] cols[c].len() == series_len(cols)
}

/// Splits every series of a buffer in two: the warm-up part, which leaves out
/// the last `w_all` points, and the working part, which is those last `w_all`
/// points.
pub fn split_warmup<T: Copy>(cols: &Vec<Vec<T>>, w_all: usize) -> (r: (Vec<Vec<T>>, Vec<Vec<T>>))
    requires
        is_rectangular(rows_view(cols@)),
        w_all <= series_len(rows_view(cols@)),
    ensures
        r.0.len() == cols.len(),
        r.1.len() == cols.len(),
        forall|c: int|
            0 <= c < cols.len() ==> #[trigger] r.0[c]@ == cols[c]@.take(
                cols[c].len() - w_all,
            ),
        forall|c: int|
            0 <= c < cols.len() ==> #[trigger] r.1[c]@ == cols[c]@.skip(
                cols[c].len() - w_all,
            ),
        forall|c: int| 0 <= c < cols.len() ==> #[trigger] r.1[c].len() == w_all,
        forall|c: int| 0 <= c < cols.len() ==> r.0[c]@ + r.1[c]@ == #[trigger] cols[c]@,
{
    let ghost all = rows_view(cols@);
    let mut head: Vec<Vec<T>> = Vec::new();
    let mut tail: Vec<Vec<T>> = Vec::new();
    let mut c: usize = 0;
    while c < cols.len()
        invariant
            c <= cols.len(),
            all == rows_view(cols@),
            is_rectangular(all),
            w_all <= series_len(all),
            head.len() == c,
            tail.len() == c,
            forall|q: int| 0 <= q < c ==> #[trigger] head[q]@ == cols[q]@.take(cols[q].len() - w_all),
            forall|q: int| 0 <= q < c ==> #[trigger] tail[q]@ == cols[q]@.skip(cols[q].len() - w_all),
            forall|q: int| 0 <= q < c ==> #[trigger] tail[q].len() == w_all,
            forall|q: int| 0 <= q < c ==> head[q]@ + tail[q]@ == #[trigger] cols[q]@,
        decreases cols.len() - c,
    {
        let col = &cols[c];
        assert(all[c as int].len() == series_len(all));
        let w = col.len() - w_all;
        let h = copy_range(col, 0, w);
        let t = copy_range(col, w, col.len());
        assert(h@ =~= col@.take(w as int));
        assert(t@ =~= col@.skip(w as int));
        assert(h@ + t@ =~= col@);
        head.push(h);
        tail.push(t);
        c = c + 1;
    }
    (head, tail)
}

} // verus!
