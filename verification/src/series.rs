use vstd::prelude::*;
use crate::columns::{procedure_fits, rows_view, select, select_by_procedure};
use crate::names::{index_of, lemma_index_of, names_known, position_in_prefix, position_of, string_views};
use crate::settings::{names_of, setting_names, SignalSetting, UsedSrc};

verus! {

/// Why the arguments of a signal at the last point cannot be gathered.
#[derive(Clone, Copy, Debug, PartialEq, Eq, Structural)]
pub enum SeriesArgError {
    /// A used point names a series that does not exist, or lies before its start.
    SrcOutOfRange,
    /// A used indication has no value.
    UnknownIndication,
    /// A used signal is not among the signals computed before this one.
    SignalNotReady,
    /// A procedure names an argument that does not exist.
    ProcedureOutOfRange,
}

/// The arguments that a signal receives at the last point of the series.
#[derive(Debug)]
pub struct SeriesCall<T, S> {
    pub src_arg: Vec<T>,
    pub signals_arg: Vec<S>,
}

/// The value of a used point: counted back from the last point of its series.
pub open spec fn src_point<T>(src: Seq<Seq<T>>, u: UsedSrc) -> T {
    src[u.index as int][src[u.index as int].len() - 1 - u.sub_from_last_i]
}

/// Every used point lies in the buffer.
pub open spec fn src_fits<T>(src: Seq<Seq<T>>, used: Seq<UsedSrc>) -> bool {
    forall|k: int|
        0 <= k < used.len() ==> #[trigger] used[k].index < src.len()
            && used[k].sub_from_last_i < src[used[k].index as int].len()
}

/// The values of the used points, then the values of the used indications.
pub open spec fn raw_src_arg<T>(
    src: Seq<Seq<T>>,
    used_src: Seq<UsedSrc>,
    ind_names: Seq<Seq<char>>,
    ind_values: Seq<T>,
    used_ind: Seq<String>,
) -> Seq<T> {
    Seq::new(used_src.len(), |k: int| src_point(src, used_src[k])) + Seq::new(
        used_ind.len(),
        |k: int| ind_values[index_of(ind_names, used_ind[k]@)],
    )
}

/// The number of items that `select` keeps out of `n`.
pub open spec fn selected_len(n: nat, procedure: Seq<usize>) -> nat {
    if procedure.len() == 0 {
        n
    } else {
        procedure.len()
    }
}

/// The first reason, in the order in which the arguments are gathered, why
/// the arguments of setting `s` cannot be gathered when the signals before it,
/// named `earlier`, are computed.
pub open spec fn series_failure<T>(
    s: SignalSetting,
    src: Seq<Seq<T>>,
    ind_names: Seq<Seq<char>>,
    earlier: Seq<Seq<char>>,
) -> Option<SeriesArgError> {
    let n_raw = (s.used_src.len() + s.used_ind.len()) as nat;
    if !src_fits(src, s.used_src@) {
        Some(SeriesArgError::SrcOutOfRange)
    } else if !names_known(ind_names, s.used_ind@) {
        Some(SeriesArgError::UnknownIndication)
    } else if !names_known(earlier, s.used_signals@) {
        Some(SeriesArgError::SignalNotReady)
    } else if !procedure_fits(s.procedure_used_src@, n_raw) || !procedure_fits(
        s.procedure_used_signals@,
        selected_len(n_raw, s.procedure_used_src@),
    ) {
        Some(SeriesArgError::ProcedureOutOfRange)
    } else {
        None
    }
}

/// The source arguments of setting `s`: the values of its used points and
/// indications, picked by its source procedure and then by its signals
/// procedure.
pub open spec fn series_src_arg<T>(
    s: SignalSetting,
    src: Seq<Seq<T>>,
    ind_names: Seq<Seq<char>>,
    ind_values: Seq<T>,
) -> Seq<T> {
    select(
        select(
            raw_src_arg(src, s.used_src@, ind_names, ind_values, s.used_ind@),
            s.procedure_used_src@,
        ),
        s.procedure_used_signals@,
    )
}

/// The signal arguments of setting `s`: the results of the signals it uses,
/// each found by name among the signals computed before it.
pub open spec fn series_signals_arg<S>(s: SignalSetting, earlier: Seq<Seq<char>>, done: Seq<S>) -> Seq<S> {
    Seq::new(s.used_signals.len() as nat, |k: int| done[index_of(earlier, s.used_signals@[k]@)])
}

/// The arguments of the next signal to compute at the last point of the
/// series, `settings[done.len()]`, given the price buffer `src`, the
/// indications by name, and the results `done` of the signals before it.
pub fn series_call<T: Copy, S: Copy>(
    settings: &Vec<SignalSetting>,
    src: &Vec<Vec<T>>,
    ind_names: &Vec<String>,
    ind_values: &Vec<T>,
    done: &Vec<S>,
) -> (r: Result<SeriesCall<T, S>, SeriesArgError>)
    requires
        done.len() < settings.len(),
        ind_names.len() == ind_values.len(),
    ensures
        ({
            let s = settings@[done.len() as int];
            let earlier = setting_names(settings@).take(done.len() as int);
            let fail = series_failure(s, rows_view(src@), string_views(ind_names@), earlier);
            match r {
                Ok(call) => {
                    &&& fail is None
                    &&& call.src_arg@ == series_src_arg(
                        s,
                        rows_view(src@),
                        string_views(ind_names@),
                        ind_values@,
                    )
                    &&& call.signals_arg@ == series_signals_arg(s, earlier, done@)
                    &&& call.signals_arg.len() == s.used_signals.len()
                    &&& forall|k: int, j: int|
                        #![trigger call.signals_arg@[k], done@[j]]
                        0 <= k < s.used_signals.len() && 0 <= j < done.len()
                            && settings@[j].name@ == s.used_signals@[k]@ && (forall|q: int|
                            0 <= q < j ==> settings@[q].name@ != s.used_signals@[k]@)
                            ==> call.signals_arg@[k] == done@[j]
                },
                Err(e) => fail == Some(e),
            }
        }),
{
    let ghost srcv = rows_view(src@);
    let ghost inds = string_views(ind_names@);
    let i = done.len();
    let s = &settings[i];
    let ghost earlier = setting_names(settings@).take(i as int);
    // the used points
    let mut raw: Vec<T> = Vec::new();
    let mut k: usize = 0;
    while k < s.used_src.len()
        invariant
            k <= s.used_src.len(),
            i == done.len(),
            i < settings.len(),
            *s == settings@[i as int],
            srcv == rows_view(src@),
            src_fits(srcv, s.used_src@.take(k as int)),
            raw@ == Seq::new(k as nat, |q: int| src_point(srcv, s.used_src@[q])),
        decreases s.used_src.len() - k,
    {
        let u = s.used_src[k];
        if u.index >= src.len() || u.sub_from_last_i >= src[u.index].len() {
            assert(!src_fits(srcv, s.used_src@)) by {
                assert(s.used_src@[k as int] == u);
            }
            return Err(SeriesArgError::SrcOutOfRange);
        }
        let col = &src[u.index];
        raw.push(col[col.len() - 1 - u.sub_from_last_i]);
        assert(src_fits(srcv, s.used_src@.take(k as int + 1))) by {
            assert forall|q: int| 0 <= q < k + 1 implies #[trigger] s.used_src@.take(k as int + 1)[q].index < srcv.len()
                && s.used_src@.take(k as int + 1)[q].sub_from_last_i < srcv[s.used_src@.take(k as int + 1)[q].index as int].len() by {
                if q < k {
                    assert(s.used_src@.take(k as int)[q] == s.used_src@[q]);
                }
            }
        }
        k = k + 1;
        assert(raw@ =~= Seq::new(k as nat, |q: int| src_point(srcv, s.used_src@[q])));
    }
    assert(s.used_src@.take(s.used_src.len() as int) == s.used_src@);
    // the used indications
    let ghost n_src = s.used_src.len() as nat;
    let mut k: usize = 0;
    while k < s.used_ind.len()
        invariant
            k <= s.used_ind.len(),
            i == done.len(),
            i < settings.len(),
            *s == settings@[i as int],
            srcv == rows_view(src@),
            src_fits(srcv, s.used_src@),
            ind_names.len() == ind_values.len(),
            inds == string_views(ind_names@),
            n_src == s.used_src.len(),
            names_known(inds, s.used_ind@.take(k as int)),
            raw@ == Seq::new(n_src, |q: int| src_point(srcv, s.used_src@[q])) + Seq::new(
                k as nat,
                |q: int| ind_values@[index_of(inds, s.used_ind@[q]@)],
            ),
        decreases s.used_ind.len() - k,
    {
        match position_of(ind_names, &s.used_ind[k]) {
            None => {
                assert(!names_known(inds, s.used_ind@)) by {
                    assert(index_of(inds, s.used_ind@[k as int]@) < 0);
                }
                return Err(SeriesArgError::UnknownIndication);
            },
            Some(j) => {
                proof {
                    lemma_index_of(inds, s.used_ind@[k as int]@);
                }
                raw.push(ind_values[j]);
                assert(names_known(inds, s.used_ind@.take(k as int + 1))) by {
                    assert forall|q: int| 0 <= q < k + 1 implies index_of(inds, #[trigger] s.used_ind@.take(k as int + 1)[q]@) >= 0 by {
                        if q < k {
                            assert(s.used_ind@.take(k as int)[q] == s.used_ind@[q]);
                        }
                    }
                }
                k = k + 1;
                assert(raw@ =~= Seq::new(n_src, |q: int| src_point(srcv, s.used_src@[q])) + Seq::new(
                    k as nat,
                    |q: int| ind_values@[index_of(inds, s.used_ind@[q]@)],
                ));
            },
        }
    }
    assert(s.used_ind@.take(s.used_ind.len() as int) == s.used_ind@);
    assert(raw@ == raw_src_arg(srcv, s.used_src@, inds, ind_values@, s.used_ind@));
    // the used signals, among those computed before
    let names = names_of(settings);
    assert(string_views(names@).len() == names.len());
    assert(setting_names(settings@).len() == settings.len());
    assert(string_views(names@).take(i as int) == earlier);
    let mut sig: Vec<S> = Vec::new();
    let mut k: usize = 0;
    while k < s.used_signals.len()
        invariant
            k <= s.used_signals.len(),
            *s == settings@[i as int],
            srcv == rows_view(src@),
            inds == string_views(ind_names@),
            src_fits(srcv, s.used_src@),
            names_known(inds, s.used_ind@),
            i == done.len(),
            i < settings.len(),
            names.len() == settings.len(),
            string_views(names@).take(i as int) == earlier,
            earlier == setting_names(settings@).take(i as int),
            names_known(earlier, s.used_signals@.take(k as int)),
            sig@ == Seq::new(k as nat, |q: int| done@[index_of(earlier, s.used_signals@[q]@)]),
        decreases s.used_signals.len() - k,
    {
        match position_in_prefix(&names, i, &s.used_signals[k]) {
            None => {
                assert(!names_known(earlier, s.used_signals@)) by {
                    assert(index_of(earlier, s.used_signals@[k as int]@) < 0);
                }
                return Err(SeriesArgError::SignalNotReady);
            },
            Some(j) => {
                proof {
                    lemma_index_of(earlier, s.used_signals@[k as int]@);
                }
                sig.push(done[j]);
                assert(names_known(earlier, s.used_signals@.take(k as int + 1))) by {
                    assert forall|q: int| 0 <= q < k + 1 implies index_of(earlier, #[trigger] s.used_signals@.take(k as int + 1)[q]@) >= 0 by {
                        if q < k {
                            assert(s.used_signals@.take(k as int)[q] == s.used_signals@[q]);
                        }
                    }
                }
                k = k + 1;
                assert(sig@ =~= Seq::new(k as nat, |q: int| done@[index_of(earlier, s.used_signals@[q]@)]));
            },
        }
    }
    assert(s.used_signals@.take(s.used_signals.len() as int) == s.used_signals@);
    assert(sig@ == series_signals_arg(*s, earlier, done@));
    // the procedures
    if !fits(&s.procedure_used_src, raw.len()) {
        return Err(SeriesArgError::ProcedureOutOfRange);
    }
    let picked = select_by_procedure(&raw, &s.procedure_used_src);
    if !fits(&s.procedure_used_signals, picked.len()) {
        return Err(SeriesArgError::ProcedureOutOfRange);
    }
    let src_arg = select_by_procedure(&picked, &s.procedure_used_signals);
    proof {
        law_series_signals_arg(*s, earlier, done@);
        assert forall|k: int, j: int|
            #![trigger sig@[k], done@[j]]
            0 <= k < s.used_signals.len() && 0 <= j < done.len()
                && settings@[j].name@ == s.used_signals@[k]@ && (forall|q: int|
                0 <= q < j ==> settings@[q].name@ != s.used_signals@[k]@)
                implies sig@[k] == done@[j] by {
            lemma_index_of(earlier, s.used_signals@[k]@);
            let f = index_of(earlier, s.used_signals@[k]@);
            assert(earlier.len() == done.len());
            assert(earlier[j] == settings@[j].name@);
            if f >= 0 && f != j {
                assert(earlier[f] == settings@[f].name@);
            }
            if f < 0 {
                assert(earlier[j] == s.used_signals@[k]@);
            }
        }
    }
    Ok(SeriesCall { src_arg, signals_arg: sig })
}

/// Without procedures, the source arguments are the values of the used
/// points, then those of the used indications, in the order of the settings.
pub proof fn law_series_src_arg_unpicked<T>(
    s: SignalSetting,
    src: Seq<Seq<T>>,
    ind_names: Seq<Seq<char>>,
    ind_values: Seq<T>,
)
    requires
        s.procedure_used_src@.len() == 0,
        s.procedure_used_signals@.len() == 0,
    ensures
        series_src_arg(s, src, ind_names, ind_values) == Seq::new(
            s.used_src@.len(),
            |k: int| src_point(src, s.used_src@[k]),
        ) + Seq::new(s.used_ind@.len(), |k: int| ind_values[index_of(ind_names, s.used_ind@[k]@)]),
{
}

/// The raw source arguments: first the used points, each counted back from
/// the last point of its series, then the used indications, each the value
/// under the first matching name.
pub proof fn law_raw_src_arg<T>(
    src: Seq<Seq<T>>,
    used_src: Seq<UsedSrc>,
    ind_names: Seq<Seq<char>>,
    ind_values: Seq<T>,
    used_ind: Seq<String>,
)
    ensures
        raw_src_arg(src, used_src, ind_names, ind_values, used_ind).len() == used_src.len()
            + used_ind.len(),
        forall|k: int|
            0 <= k < used_src.len() ==> #[trigger] raw_src_arg(
                src,
                used_src,
                ind_names,
                ind_values,
                used_ind,
            )[k] == src[used_src[k].index as int][src[used_src[k].index as int].len() - 1
                - used_src[k].sub_from_last_i],
        forall|k: int|
            0 <= k < used_ind.len() ==> #[trigger] raw_src_arg(
                src,
                used_src,
                ind_names,
                ind_values,
                used_ind,
            )[used_src.len() + k] == ind_values[index_of(ind_names, used_ind[k]@)],
{
}

/// The source arguments: item `k` is the raw argument at position
/// `p_src[p_sig[k]]`, where an empty procedure stands for "the same position";
/// each procedure, when not empty, sets how many items there are.
pub proof fn law_series_src_arg<T>(
    s: SignalSetting,
    src: Seq<Seq<T>>,
    ind_names: Seq<Seq<char>>,
    ind_values: Seq<T>,
)
    requires
        procedure_fits(s.procedure_used_src@, (s.used_src.len() + s.used_ind.len()) as nat),
        procedure_fits(
            s.procedure_used_signals@,
            selected_len((s.used_src.len() + s.used_ind.len()) as nat, s.procedure_used_src@),
        ),
    ensures
        ({
            let raw = raw_src_arg(src, s.used_src@, ind_names, ind_values, s.used_ind@);
            let out = series_src_arg(s, src, ind_names, ind_values);
            let ps = s.procedure_used_src@;
            let pg = s.procedure_used_signals@;
            &&& pg.len() > 0 ==> out.len() == pg.len()
            &&& pg.len() == 0 && ps.len() > 0 ==> out.len() == ps.len()
            &&& pg.len() == 0 && ps.len() == 0 ==> out == raw
            &&& pg.len() == 0 && ps.len() > 0 ==> forall|k: int|
                0 <= k < ps.len() ==> #[trigger] out[k] == raw[ps[k] as int]
            &&& pg.len() > 0 && ps.len() == 0 ==> forall|k: int|
                0 <= k < pg.len() ==> #[trigger] out[k] == raw[pg[k] as int]
            &&& pg.len() > 0 && ps.len() > 0 ==> forall|k: int|
                0 <= k < pg.len() ==> #[trigger] out[k] == raw[ps[pg[k] as int] as int]
        }),
{
    let raw = raw_src_arg(src, s.used_src@, ind_names, ind_values, s.used_ind@);
    law_raw_src_arg(src, s.used_src@, ind_names, ind_values, s.used_ind@);
    let ps = s.procedure_used_src@;
    let pg = s.procedure_used_signals@;
    if ps.len() > 0 {
        crate::columns::law_select_picks(raw, ps);
    }
    let mid = select(raw, ps);
    if pg.len() > 0 {
        crate::columns::law_select_picks(mid, pg);
    }
}

/// A non-empty procedure keeps as many items as it has entries, an empty one
/// keeps them all.
pub proof fn law_selected_len<A>(items: Seq<A>, procedure: Seq<usize>)
    requires
        procedure_fits(procedure, items.len()),
    ensures
        select(items, procedure).len() == selected_len(items.len(), procedure),
{
}

/// When the arguments of a setting cannot be gathered: a used point outside
/// the buffer comes first, then an unknown indication, then a used signal not
/// computed before, then a procedure index past the arguments it picks from.
pub proof fn law_series_failure<T>(
    s: SignalSetting,
    src: Seq<Seq<T>>,
    ind_names: Seq<Seq<char>>,
    earlier: Seq<Seq<char>>,
)
    ensures
        ({
            let f = series_failure(s, src, ind_names, earlier);
            let bad_src = exists|k: int|
                0 <= k < s.used_src.len() && (s.used_src@[k].index >= src.len()
                    || s.used_src@[k].sub_from_last_i >= src[s.used_src@[k].index as int].len());
            let bad_ind = exists|k: int|
                0 <= k < s.used_ind.len() && index_of(ind_names, s.used_ind@[k]@) < 0;
            let bad_sig = exists|k: int|
                0 <= k < s.used_signals.len() && index_of(earlier, s.used_signals@[k]@) < 0;
            let n_raw = s.used_src.len() + s.used_ind.len();
            let n_mid = if s.procedure_used_src.len() == 0 { n_raw } else { s.procedure_used_src.len() as int };
            let bad_proc = (exists|k: int|
                0 <= k < s.procedure_used_src.len() && s.procedure_used_src@[k] >= n_raw) || (exists|k: int|
                0 <= k < s.procedure_used_signals.len() && s.procedure_used_signals@[k] >= n_mid);
            &&& (f == Some(SeriesArgError::SrcOutOfRange)) == bad_src
            &&& (f == Some(SeriesArgError::UnknownIndication)) == (!bad_src && bad_ind)
            &&& (f == Some(SeriesArgError::SignalNotReady)) == (!bad_src && !bad_ind && bad_sig)
            &&& (f == Some(SeriesArgError::ProcedureOutOfRange)) == (!bad_src && !bad_ind && !bad_sig
                && bad_proc)
            &&& (f is None) == (!bad_src && !bad_ind && !bad_sig && !bad_proc)
        }),
{
}

/// The signal arguments: item `k` is the result of the first earlier signal
/// named `used_signals[k]`, one item per used signal, in their order.
pub proof fn law_series_signals_arg<S>(s: SignalSetting, earlier: Seq<Seq<char>>, done: Seq<S>)
    ensures
        series_signals_arg(s, earlier, done).len() == s.used_signals.len(),
        forall|k: int|
            0 <= k < s.used_signals.len() ==> #[trigger] series_signals_arg(s, earlier, done)[k]
                == done[index_of(earlier, s.used_signals@[k]@)],
{
}

/// Whether every index of `procedure` is below `n`.
pub fn fits(procedure: &Vec<usize>, n: usize) -> (r: bool)
    ensures
        r == procedure_fits(procedure@, n as nat),
{
    let mut k: usize = 0;
    while k < procedure.len()
        invariant
            k <= procedure.len(),
            forall|q: int| 0 <= q < k ==> procedure@[q] < n,
        decreases procedure.len() - k,
    {
        if procedure[k] >= n {
            return false;
        }
        k = k + 1;
    }
    true
}

} // verus!
