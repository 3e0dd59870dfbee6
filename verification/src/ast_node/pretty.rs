//! Pretty-printing expressions.
use crate::assoc::{as_map, keys_differ, lemma_entry, lemma_put_entry};
use crate::text::{decimal, decimal_text, texts};
use std::fmt;
use vstd::prelude::*;

verus! {

/// The error of writing a text.
#[verifier::external_type_specification]
#[verifier::external_body]
pub struct ExFmtError(fmt::Error);

/// Lines that are longer are broken.
pub const LINE_LENGTH: usize = 80;

/// The precedence of an operator.
pub type Precedence = u8;

/// The state of the pretty-printer.
#[derive(Debug)]
pub struct Printer {
    /// What has been printed.
    pub writer: String,
    /// The precedence of the context: an expression of no higher precedence
    /// is put in parentheses.
    pub ctx_precedence: Precedence,
    /// The names of the bound variables, the innermost last.
    pub bindings: Vec<String>,
    /// The depth of indentation.
    pub indentation: usize,
    /// What is set aside while something else is printed.
    pub backup_writer: String,
}

/// Whether `after` is the printer `before` with `text` printed.
pub open spec fn wrote(before: Printer, text: Seq<char>, after: Printer) -> bool {
    &&& after.writer@ == before.writer@ + text
    &&& after.ctx_precedence == before.ctx_precedence
    &&& after.bindings == before.bindings
    &&& after.indentation == before.indentation
    &&& after.backup_writer == before.backup_writer
}

/// A line break and two blanks for each level of indentation.
pub open spec fn line_break(indentation: usize) -> Seq<char> {
    seq!['\n'] + Seq::new((indentation * 2) as nat, |i: int| ' ')
}

/// Whether `f` can run on any printer.
pub open spec fn runs<F: FnMut(&mut Printer) -> fmt::Result>(f: F) -> bool {
    forall|m: &mut Printer| #[trigger] call_requires(f, (m,))
}

impl Printer {
    /// A printer for a whole expression.
    pub fn new(writer: String) -> (r: Self)
        ensures
            r.writer == writer,
            r.ctx_precedence == 0,
            r.bindings@.len() == 0,
            r.indentation == 0,
            r.backup_writer@.len() == 0,
    {
        Printer {
            writer,
            ctx_precedence: 0,
            bindings: Vec::new(),
            indentation: 0,
            backup_writer: String::new(),
        }
    }

    /// Prints a text.
    pub fn write_str(&mut self, s: &str)
        ensures
            wrote(*old(self), s@, *final(self)),
    {
        self.writer.append(s);
    }

    /// Prints a character.
    pub fn write_char(&mut self, c: char)
        ensures
            wrote(*old(self), seq![c], *final(self)),
    {
        self.writer.push(c);
        assert(self.writer@ =~= old(self).writer@ + seq![c]);
    }

    /// Begins a new line at the current indentation.
    pub fn new_line(&mut self) -> (r: fmt::Result)
        requires
            old(self).indentation * 2 <= usize::MAX,
        ensures
            r is Ok,
            wrote(*old(self), line_break(old(self).indentation), *final(self)),
    {
        self.writer.push('\n');
        let n: usize = self.indentation * 2;
        let ghost start = self.writer@;
        for i in 0..n
            invariant
                n == old(self).indentation * 2,
                self.writer@ == start + Seq::new(i as nat, |j: int| ' '),
                self.ctx_precedence == old(self).ctx_precedence,
                self.bindings == old(self).bindings,
                self.indentation == old(self).indentation,
                self.backup_writer == old(self).backup_writer,
        {
            self.writer.push(' ');
            assert(self.writer@ =~= start + Seq::new((i + 1) as nat, |j: int| ' '));
        }
        assert(self.writer@ =~= old(self).writer@ + line_break(old(self).indentation));
        Ok(())
    }

    /// Prints with `f1`, then `sep`, then with `f2`; stops at an error of
    /// `f1`.
    pub fn chain<T1: FnMut(&mut Printer) -> fmt::Result, T2: FnMut(&mut Printer) -> fmt::Result>(
        &mut self,
        f1: &mut T1,
        f2: &mut T2,
        sep: &str,
    ) -> (r: fmt::Result)
        requires
            runs(*old(f1)),
            runs(*old(f2)),
        ensures
            exists|m1: &mut Printer, r1: fmt::Result|
                {
                    &&& *m1 == *old(self)
                    &&& #[trigger] call_ensures(*old(f1), (m1,), r1)
                    &&& r1 is Err ==> r == r1 && *final(self) == *final(m1)
                    &&& r1 is Ok ==> exists|m2: &mut Printer|
                        {
                            &&& wrote(*final(m1), sep@, *m2)
                            &&& #[trigger] call_ensures(*old(f2), (m2,), r)
                            &&& *final(self) == *final(m2)
                        }
                },
    {
        f1(self)?;
        self.write_str(sep);
        f2(self)
    }

    /// Prints with `f` in parentheses; stops at an error of `f`.
    pub fn in_parens<T: Fn(&mut Printer) -> fmt::Result>(&mut self, f: T) -> (r: fmt::Result)
        requires
            runs(f),
        ensures
            exists|m: &mut Printer, q: fmt::Result|
                {
                    &&& wrote(*old(self), seq!['('], *m)
                    &&& #[trigger] call_ensures(f, (m,), q)
                    &&& q is Err ==> r == q && *final(self) == *final(m)
                    &&& q is Ok ==> r is Ok && wrote(*final(m), seq![')'], *final(self))
                },
    {
        self.write_char('(');
        f(self)?;
        self.write_char(')');
        Ok(())
    }

    /// Prints with `f` in brackets; stops at an error of `f`.
    pub fn in_brackets<T: FnMut(&mut Printer) -> fmt::Result>(&mut self, mut f: T) -> (r:
        fmt::Result)
        requires
            runs(f),
        ensures
            exists|m: &mut Printer, q: fmt::Result|
                {
                    &&& wrote(*old(self), seq!['['], *m)
                    &&& #[trigger] call_ensures(f, (m,), q)
                    &&& q is Err ==> r == q && *final(self) == *final(m)
                    &&& q is Ok ==> r is Ok && wrote(*final(m), seq![']'], *final(self))
                },
    {
        self.write_char('[');
        f(self)?;
        self.write_char(']');
        Ok(())
    }

    /// Prints with `f`, one level further in; stops at an error of `f`.
    pub fn indented<T: FnMut(&mut Printer) -> fmt::Result>(&mut self, f: &mut T) -> (r:
        fmt::Result)
        requires
            runs(*old(f)),
            old(self).indentation < usize::MAX,
            forall|m: &mut Printer| #[trigger]
                call_ensures(*old(f), (m,), Ok(())) && m.indentation > 0 ==> final(m).indentation
                    > 0,
        ensures
            exists|m: &mut Printer, q: fmt::Result|
                {
                    &&& *m == (Printer {
                        indentation: (old(self).indentation + 1) as usize,
                        ..*old(self)
                    })
                    &&& #[trigger] call_ensures(*old(f), (m,), q)
                    &&& q is Err ==> r == q && *final(self) == *final(m)
                    &&& q is Ok ==> r is Ok && *final(self) == (Printer {
                        indentation: (final(m).indentation - 1) as usize,
                        ..*final(m)
                    })
                },
    {
        self.indentation = self.indentation + 1;
        f(self)?;
        self.indentation = self.indentation - 1;
        Ok(())
    }

    /// Exchanges what is printed and what is set aside.
    pub fn swap_writer(&mut self)
        ensures
            *final(self) == (Printer {
                writer: old(self).backup_writer,
                backup_writer: old(self).writer,
                ..*old(self)
            }),
    {
        core::mem::swap(&mut self.writer, &mut self.backup_writer);
    }

    /// Sets aside what is printed, prints with `f` alone, puts back what was
    /// set aside, and returns what `f` has printed; stops at an error of `f`.
    pub fn temp<T: FnMut(&mut Printer) -> fmt::Result>(&mut self, mut f: T) -> (r: Result<
        String,
        fmt::Error,
    >)
        requires
            runs(f),
        ensures
            exists|m: &mut Printer, q: fmt::Result|
                {
                    &&& m.writer@.len() == 0
                    &&& *m == (Printer {
                        writer: m.writer,
                        backup_writer: old(self).writer,
                        ..*old(self)
                    })
                    &&& #[trigger] call_ensures(f, (m,), q)
                    &&& match q {
                        Err(e) => r == Err::<String, fmt::Error>(e) && *final(self) == *final(m),
                        Ok(_) => r == Ok::<String, fmt::Error>(final(m).writer) && *final(self)
                            == (Printer {
                            writer: final(m).backup_writer,
                            backup_writer: old(self).backup_writer,
                            ..*final(m)
                        }),
                    }
                },
    {
        let mut aside: String = String::new();
        core::mem::swap(&mut aside, &mut self.backup_writer);
        self.swap_writer();
        f(self)?;
        self.swap_writer();
        core::mem::swap(&mut aside, &mut self.backup_writer);
        Ok(aside)
    }

    /// Prints with `f` where one more variable is bound, named by `prefix`
    /// and the number of variables; stops at an error of `f`.
    pub fn with_binding<T: FnMut(&mut Printer) -> fmt::Result>(&mut self, prefix: &str, mut f: T)
        -> (r: fmt::Result)
        requires
            runs(f),
        ensures
            exists|m: &mut Printer, q: fmt::Result|
                {
                    &&& bound(*old(self), prefix@, *m)
                    &&& #[trigger] call_ensures(f, (m,), q)
                    &&& q is Err ==> r == q && *final(self) == *final(m)
                    &&& q is Ok ==> r is Ok && unbound(*final(m), *final(self))
                },
    {
        self.bind(prefix);
        f(self)?;
        self.unbind();
        Ok(())
    }

    /// Binds one more variable.
    pub(crate) fn bind(&mut self, prefix: &str)
        ensures
            bound(*old(self), prefix@, *final(self)),
    {
        let mut name: String = prefix.to_owned();
        name.append(decimal_text(self.bindings.len()).as_str());
        let ghost s = texts(self.bindings@);
        self.bindings.push(name);
        assert(texts(self.bindings@) =~= s.push(name@));
    }

    /// Leaves the scope of the innermost variable.
    pub(crate) fn unbind(&mut self)
        ensures
            unbound(*old(self), *final(self)),
    {
        let ghost s = texts(self.bindings@);
        let _name: Option<String> = self.bindings.pop();
        assert(s.len() > 0 ==> texts(self.bindings@) =~= s.drop_last());
        assert(s.len() == 0 ==> texts(self.bindings@) =~= s);
    }

    /// Prints with `f(0)` to `f(n - 1)`, with `sep` and a line break between;
    /// stops at an error of `f`.
    pub fn vsep<T: FnMut(&mut Printer, usize) -> fmt::Result>(
        &mut self,
        f: &mut T,
        n: usize,
        sep: &str,
    ) -> (r: fmt::Result)
        requires
            forall|m: &mut Printer, i: usize| #[trigger] call_requires(*old(f), (m, i)),
            old(self).indentation * 2 <= usize::MAX,
            forall|m: &mut Printer, i: usize| #[trigger]
                call_ensures(*old(f), (m, i), Ok(())) && m.indentation * 2 <= usize::MAX ==> final(
                    m
                ).indentation * 2 <= usize::MAX,
        ensures
            exists|ms: Seq<&mut Printer>|
                {
                    &&& ms.len() <= n
                    &&& ms.len() > 0 ==> *ms[0] == *old(self) && *final(self) == *final(ms.last())
                    &&& ms.len() == 0 ==> r is Ok && n == 0 && *final(self) == *old(self)
                    &&& forall|i: int|
                        0 <= i < ms.len() - 1 ==> {
                            &&& #[trigger] call_ensures(*old(f), (ms[i], i as usize), Ok(()))
                            &&& wrote(
                                *final(ms[i]),
                                sep@ + line_break(final(ms[i]).indentation),
                                *ms[i + 1],
                            )
                        }
                    &&& ms.len() > 0 ==> call_ensures(
                        *old(f),
                        (ms.last(), (ms.len() - 1) as usize),
                        r,
                    )
                    &&& r is Ok ==> ms.len() == n
                },
    {
        let mut i: usize = 0;
        assert(Seq::<&mut Printer>::empty().len() == 0);
        while i < n
            invariant
                i <= n,
                forall|m: &mut Printer, i: usize| #[trigger] call_requires(*f, (m, i)),
                self.indentation * 2 <= usize::MAX,
                forall|m: &mut Printer, i: usize| #[trigger]
                    call_ensures(*f, (m, i), Ok(())) && m.indentation * 2 <= usize::MAX ==> final(
                        m
                    ).indentation * 2 <= usize::MAX,
                *f == *old(f),
                exists|ms: Seq<&mut Printer>|
                    {
                        &&& #[trigger] ms.len() == i
                        &&& i > 0 ==> *ms[0] == *old(self)
                        &&& i == 0 ==> *self == *old(self)
                        &&& forall|j: int|
                            0 <= j < i ==> #[trigger] call_ensures(
                                *f,
                                (ms[j], j as usize),
                                Ok(()),
                            )
                        &&& forall|j: int|
                            #![trigger ms[j]]
                            0 <= j < i - 1 ==> wrote(
                                *final(ms[j]),
                                sep@ + line_break(final(ms[j]).indentation),
                                *ms[j + 1],
                            )
                        &&& 0 < i < n ==> wrote(
                            *final(ms.last()),
                            sep@ + line_break(final(ms.last()).indentation),
                            *self,
                        )
                        &&& 0 < i == n ==> *self == *final(ms.last())
                    },
            decreases n - i,
        {
            let ghost ms = choose|ms: Seq<&mut Printer>|
                    {
                        &&& #[trigger] ms.len() == i
                        &&& i > 0 ==> *ms[0] == *old(self)
                        &&& i == 0 ==> *self == *old(self)
                        &&& forall|j: int|
                            0 <= j < i ==> #[trigger] call_ensures(
                                *f,
                                (ms[j], j as usize),
                                Ok(()),
                            )
                        &&& forall|j: int|
                            #![trigger ms[j]]
                            0 <= j < i - 1 ==> wrote(
                                *final(ms[j]),
                                sep@ + line_break(final(ms[j]).indentation),
                                *ms[j + 1],
                            )
                        &&& 0 < i < n ==> wrote(
                            *final(ms.last()),
                            sep@ + line_break(final(ms.last()).indentation),
                            *self,
                        )
                        &&& 0 < i == n ==> *self == *final(ms.last())
                    };
            let ghost before = *self;
            let q: fmt::Result = f(self, i);
            let ghost after = *self;
            let ghost m = choose|m: &mut Printer|
                *m == before && *final(m) == after && #[trigger] call_ensures(*f, (m, i), q);
            let ghost next = ms.push(m);
            assert(next.len() == i + 1);
            assert(next.last() == m);
            q?;
            if i < n - 1 {
                self.write_str(sep);
                self.new_line()?;
                assert(self.writer@ =~= after.writer@ + (sep@ + line_break(after.indentation)));
            }
            proof {
                assert forall|j: int| 0 <= j < i + 1 implies #[trigger] call_ensures(
                    *f,
                    (next[j], j as usize),
                    Ok(()),
                ) by {
                    if j < i {
                        assert(next[j] == ms[j]);
                        assert(call_ensures(*f, (ms[j], j as usize), Ok(())));
                    }
                }
                assert forall|j: int|
                    #![trigger next[j]]
                    0 <= j < i implies wrote(
                    *final(next[j]),
                    sep@ + line_break(final(next[j]).indentation),
                    *next[j + 1],
                ) by {
                    assert(next[j] == ms[j]);
                    if j < i - 1 {
                        assert(next[j + 1] == ms[j + 1]);
                    }
                }
            }
            i = i + 1;
        }
        Ok(())
    }
}

/// What is printed between two parts.
pub open spec fn between(sep: Seq<char>, broken: bool, indentation: usize) -> Seq<char> {
    if broken {
        sep + line_break(indentation)
    } else {
        sep
    }
}

impl Printer {
    /// Prints with `f(0)` to `f(n - 1)`, with `sep` and, where `broken`, a
    /// line break between; stops at an error of `f`.
    fn print_all<M: Memoize, T: FnMut(&mut Printer, usize, &mut M) -> fmt::Result>(
        &mut self,
        f: &mut T,
        n: usize,
        sep: &str,
        memo: &mut M,
        broken: bool,
    ) -> (r: fmt::Result)
        requires
            forall|m: &mut Printer, i: usize, k: &mut M| #[trigger]
                call_requires(*old(f), (m, i, k)),
            old(self).indentation * 2 <= usize::MAX,
            forall|m: &mut Printer, i: usize, k: &mut M| #[trigger]
                call_ensures(*old(f), (m, i, k), Ok(())) && m.indentation * 2 <= usize::MAX
                    ==> final(m).indentation * 2 <= usize::MAX,
            old(memo).s_wf(),
            forall|m: &mut Printer, i: usize, k: &mut M| #[trigger]
                call_ensures(*old(f), (m, i, k), Ok(())) && k.s_wf() ==> final(k).s_wf(),
        ensures
            *final(f) == *old(f),
            r is Ok ==> final(self).indentation * 2 <= usize::MAX && final(memo).s_wf(),
            exists|ms: Seq<&mut Printer>, ks: Seq<&mut M>|
                {
                    &&& #[trigger] ms.len() == #[trigger] ks.len()
                    &&& ms.len() <= n
                    &&& ms.len() > 0 ==> {
                        &&& *ms[0] == *old(self)
                        &&& *ks[0] == *old(memo)
                        &&& *final(self) == *final(ms.last())
                        &&& *final(memo) == *final(ks.last())
                        &&& call_ensures(
                            *old(f),
                            (ms.last(), (ms.len() - 1) as usize, ks.last()),
                            r,
                        )
                    }
                    &&& ms.len() == 0 ==> {
                        &&& r is Ok
                        &&& n == 0
                        &&& *final(self) == *old(self)
                        &&& *final(memo) == *old(memo)
                    }
                    &&& forall|j: int|
                        #![trigger ms[j]]
                        0 <= j < ms.len() - 1 ==> {
                            &&& call_ensures(*old(f), (ms[j], j as usize, ks[j]), Ok(()))
                            &&& *ks[j + 1] == *final(ks[j])
                            &&& wrote(
                                *final(ms[j]),
                                between(sep@, broken, final(ms[j]).indentation),
                                *ms[j + 1],
                            )
                        }
                    &&& r is Ok ==> ms.len() == n
                },
    {
        let mut i: usize = 0;
        assert(Seq::<&mut Printer>::empty().len() == 0);
        assert(Seq::<&mut M>::empty().len() == 0);
        while i < n
            invariant
                i <= n,
                forall|m: &mut Printer, i: usize, k: &mut M| #[trigger]
                    call_requires(*f, (m, i, k)),
                self.indentation * 2 <= usize::MAX,
                forall|m: &mut Printer, i: usize, k: &mut M| #[trigger]
                    call_ensures(*f, (m, i, k), Ok(())) && m.indentation * 2 <= usize::MAX
                        ==> final(m).indentation * 2 <= usize::MAX,
                memo.s_wf(),
                forall|m: &mut Printer, i: usize, k: &mut M| #[trigger]
                    call_ensures(*f, (m, i, k), Ok(())) && k.s_wf() ==> final(k).s_wf(),
                *f == *old(f),
                exists|ms: Seq<&mut Printer>, ks: Seq<&mut M>|
                    {
                        &&& #[trigger] ms.len() == i
                        &&& #[trigger] ks.len() == i
                        &&& i > 0 ==> *ms[0] == *old(self) && *ks[0] == *old(memo)
                        &&& i == 0 ==> *self == *old(self) && *memo == *old(memo)
                        &&& forall|j: int|
                            0 <= j < i ==> #[trigger] call_ensures(
                                *f,
                                (ms[j], j as usize, ks[j]),
                                Ok(()),
                            )
                        &&& forall|j: int|
                            #![trigger ms[j]]
                            0 <= j < i - 1 ==> *ks[j + 1] == *final(ks[j]) && wrote(
                                *final(ms[j]),
                                between(sep@, broken, final(ms[j]).indentation),
                                *ms[j + 1],
                            )
                        &&& i > 0 ==> *memo == *final(ks.last())
                        &&& 0 < i < n ==> wrote(
                            *final(ms.last()),
                            between(sep@, broken, final(ms.last()).indentation),
                            *self,
                        )
                        &&& 0 < i == n ==> *self == *final(ms.last())
                    },
            decreases n - i,
        {
            let ghost (ms, ks) = choose|ms: Seq<&mut Printer>, ks: Seq<&mut M>|
                    {
                        &&& #[trigger] ms.len() == i
                        &&& #[trigger] ks.len() == i
                        &&& i > 0 ==> *ms[0] == *old(self) && *ks[0] == *old(memo)
                        &&& i == 0 ==> *self == *old(self) && *memo == *old(memo)
                        &&& forall|j: int|
                            0 <= j < i ==> #[trigger] call_ensures(
                                *f,
                                (ms[j], j as usize, ks[j]),
                                Ok(()),
                            )
                        &&& forall|j: int|
                            #![trigger ms[j]]
                            0 <= j < i - 1 ==> *ks[j + 1] == *final(ks[j]) && wrote(
                                *final(ms[j]),
                                between(sep@, broken, final(ms[j]).indentation),
                                *ms[j + 1],
                            )
                        &&& i > 0 ==> *memo == *final(ks.last())
                        &&& 0 < i < n ==> wrote(
                            *final(ms.last()),
                            between(sep@, broken, final(ms.last()).indentation),
                            *self,
                        )
                        &&& 0 < i == n ==> *self == *final(ms.last())
                    };
            let ghost before = *self;
            let ghost held = *memo;
            let q: fmt::Result = f(self, i, memo);
            let ghost after = *self;
            let ghost kept = *memo;
            let ghost (m, k) = choose|m: &mut Printer, k: &mut M|
                *m == before && *final(m) == after && *k == held && *final(k) == kept
                    && #[trigger] call_ensures(*f, (m, i, k), q);
            let ghost next = ms.push(m);
            let ghost nexts = ks.push(k);
            assert(next.len() == i + 1 && nexts.len() == i + 1);
            assert(next.last() == m && nexts.last() == k);
            proof {
                assert forall|j: int|
                    #![trigger next[j]]
                    0 <= j < i implies call_ensures(
                    *f,
                    (next[j], j as usize, nexts[j]),
                    Ok(()),
                ) && *nexts[j + 1] == *final(nexts[j]) && wrote(
                    *final(next[j]),
                    between(sep@, broken, final(next[j]).indentation),
                    *next[j + 1],
                ) by {
                    assert(next[j] == ms[j] && nexts[j] == ks[j]);
                    assert(call_ensures(*f, (ms[j], j as usize, ks[j]), Ok(())));
                    if j < i - 1 {
                        assert(next[j + 1] == ms[j + 1] && nexts[j + 1] == ks[j + 1]);
                    }
                }
            }
            q?;
            if i < n - 1 {
                self.write_str(sep);
                if broken {
                    self.new_line()?;
                }
                assert(self.writer@ =~= after.writer@ + between(
                    sep@,
                    broken,
                    after.indentation,
                ));
            }
            proof {
                assert forall|j: int| 0 <= j < i + 1 implies #[trigger] call_ensures(
                    *f,
                    (next[j], j as usize, nexts[j]),
                    Ok(()),
                ) by {
                    if j < i {
                        assert(next[j] == ms[j]);
                    }
                }
            }
            i = i + 1;
        }
        Ok(())
    }
}

/// Whether `after` is the printer `before` with one more variable bound.
pub open spec fn bound(before: Printer, prefix: Seq<char>, after: Printer) -> bool {
    &&& after.writer == before.writer
    &&& after.ctx_precedence == before.ctx_precedence
    &&& texts(after.bindings@) == texts(before.bindings@).push(
        prefix + decimal(before.bindings@.len()),
    )
    &&& after.indentation == before.indentation
    &&& after.backup_writer == before.backup_writer
}

/// Whether `after` is the printer `before` without its innermost variable.
pub open spec fn unbound(before: Printer, after: Printer) -> bool {
    &&& after.writer == before.writer
    &&& after.ctx_precedence == before.ctx_precedence
    &&& texts(after.bindings@) == if before.bindings@.len() > 0 {
        texts(before.bindings@).drop_last()
    } else {
        texts(before.bindings@)
    }
    &&& after.indentation == before.indentation
    &&& after.backup_writer == before.backup_writer
}

// ---------------------------------------------------------------------------
// What has been printed before
// ---------------------------------------------------------------------------

/// Numbers for what has been printed, so that it is printed only once.
pub trait Memoize: Sized {
    /// What is numbered.
    type Key;

    /// The numbers.
    open spec fn s_memo(&self) -> Map<Self::Key, usize> {
        arbitrary()
    }

    /// The next number.
    open spec fn s_next_id(&self) -> usize {
        arbitrary()
    }

    /// The numbers that can be gone back to.
    open spec fn s_checkpoints(&self) -> Seq<Map<Self::Key, usize>> {
        arbitrary()
    }

    /// Whether the numbers are well formed.
    open spec fn s_wf(&self) -> bool {
        arbitrary()
    }

    /// Gives a number to a key that has none.
    fn register(&mut self, key: Self::Key) -> (r: usize)
        requires
            old(self).s_wf(),
            !old(self).s_memo().dom().contains(key),
            old(self).s_next_id() < usize::MAX,
        ensures
            final(self).s_wf(),
            r == old(self).s_next_id(),
            final(self).s_memo() == old(self).s_memo().insert(key, r),
            final(self).s_next_id() == r + 1,
            final(self).s_checkpoints() == old(self).s_checkpoints(),
    ;

    /// The number of a key.
    fn lookup(&self, key: Self::Key) -> (r: Option<usize>)
        requires
            self.s_wf(),
        ensures
            r == if self.s_memo().dom().contains(key) {
                Some(self.s_memo()[key])
            } else {
                None
            },
    ;

    /// The next number.
    fn next_id(&self) -> (r: usize)
        ensures
            r == self.s_next_id(),
    ;

    /// Remembers the numbers.
    fn checkpoint(&mut self) -> (r: usize)
        requires
            old(self).s_wf(),
        ensures
            final(self).s_wf(),
            r == old(self).s_checkpoints().len(),
            final(self).s_memo() == old(self).s_memo(),
            final(self).s_next_id() == old(self).s_next_id(),
            final(self).s_checkpoints() == old(self).s_checkpoints().push(old(self).s_memo()),
    ;

    /// Goes back to remembered numbers and forgets those that were remembered
    /// later. The next number stays.
    fn restore(&mut self, id: usize)
        requires
            old(self).s_wf(),
        ensures
            final(self).s_wf(),
            final(self).s_next_id() == old(self).s_next_id(),
            id < old(self).s_checkpoints().len() ==> {
                &&& final(self).s_memo() == old(self).s_checkpoints()[id as int]
                &&& final(self).s_checkpoints() == old(self).s_checkpoints().take(id as int)
            },
            id >= old(self).s_checkpoints().len() ==> {
                &&& final(self).s_memo() == old(self).s_memo()
                &&& final(self).s_checkpoints() == old(self).s_checkpoints()
            },
    ;
}

/// Numbers for the nodes of an expression.
#[derive(Debug)]
pub struct ExprMemoizer {
    pub memo: Vec<(usize, usize)>,
    pub next_id: usize,
    pub checkpoints: Vec<Vec<(usize, usize)>>,
}

impl ExprMemoizer {
    /// No numbers.
    pub fn new() -> (r: Self)
        ensures
            r.s_wf(),
            r.s_memo() == Map::<usize, usize>::empty(),
            r.s_next_id() == 0,
            r.s_checkpoints() == Seq::<Map<usize, usize>>::empty(),
    {
        let r = ExprMemoizer { memo: Vec::new(), next_id: 0, checkpoints: Vec::new() };
        assert(r.s_memo() =~= Map::<usize, usize>::empty());
        assert(r.s_checkpoints() =~= Seq::<Map<usize, usize>>::empty());
        r
    }
}

impl Memoize for ExprMemoizer {
    type Key = usize;

    open spec fn s_memo(&self) -> Map<usize, usize> {
        as_map(self.memo@)
    }

    open spec fn s_next_id(&self) -> usize {
        self.next_id
    }

    open spec fn s_checkpoints(&self) -> Seq<Map<usize, usize>> {
        Seq::new(self.checkpoints@.len(), |i: int| as_map(self.checkpoints@[i]@))
    }

    open spec fn s_wf(&self) -> bool {
        &&& keys_differ(self.memo@)
        &&& forall|i: int|
            0 <= i < self.checkpoints@.len() ==> keys_differ((#[trigger] self.checkpoints@[i])@)
    }

    fn register(&mut self, key: usize) -> (r: usize) {
        let ghost s = self.memo@;
        let id: usize = self.next_id;
        assert forall|i: int| 0 <= i < s.len() implies (#[trigger] s[i]).0 != key by {
            if s[i].0 == key {
                assert(as_map(s).dom().contains(key));
            }
        }
        self.memo.push((key, id));
        self.next_id = id + 1;
        proof {
            lemma_put_entry(s, (key, id), self.memo@, s.len() as int);
            assert(self.s_checkpoints() =~= old(self).s_checkpoints());
        }
        id
    }

    fn lookup(&self, key: usize) -> (r: Option<usize>) {
        let n: usize = self.memo.len();
        for i in 0..n
            invariant
                n == self.memo@.len(),
                self.s_wf(),
                forall|j: int| 0 <= j < i ==> (#[trigger] self.memo@[j]).0 != key,
        {
            if self.memo[i].0 == key {
                proof {
                    lemma_entry(self.memo@, i as int);
                }
                return Some(self.memo[i].1);
            }
        }
        None
    }

    fn next_id(&self) -> (r: usize) {
        self.next_id
    }

    fn checkpoint(&mut self) -> (r: usize) {
        let id: usize = self.checkpoints.len();
        let mut copy: Vec<(usize, usize)> = Vec::new();
        let n: usize = self.memo.len();
        for i in 0..n
            invariant
                n == self.memo@.len(),
                copy@ == self.memo@.take(i as int),
        {
            copy.push(self.memo[i]);
            assert(copy@ =~= self.memo@.take(i + 1));
        }
        assert(copy@ =~= self.memo@);
        self.checkpoints.push(copy);
        assert(self.s_checkpoints() =~= old(self).s_checkpoints().push(old(self).s_memo()));
        id
    }

    fn restore(&mut self, id: usize) {
        let ghost start = self.checkpoints@;
        assert(start.take(start.len() as int) =~= start);
        while self.checkpoints.len() > id
            invariant
                self.s_wf(),
                self.next_id == old(self).next_id,
                self.checkpoints@.len() <= start.len(),
                self.checkpoints@ == start.take(self.checkpoints@.len() as int),
                self.checkpoints@.len() >= id || self.checkpoints@.len() == start.len(),
                self.checkpoints@.len() < start.len() ==> self.memo
                    == start[self.checkpoints@.len() as int],
                self.checkpoints@.len() == start.len() ==> self.memo == old(self).memo,
            decreases self.checkpoints@.len(),
        {
            let ghost before = self.checkpoints@;
            assert(keys_differ(before[before.len() - 1]@));
            assert(before[before.len() - 1] == start[before.len() - 1]);
            self.memo = self.checkpoints.pop().unwrap();
            assert(self.checkpoints@ =~= start.take(self.checkpoints@.len() as int));
            assert forall|i: int| 0 <= i < self.checkpoints@.len() implies keys_differ(
                (#[trigger] self.checkpoints@[i])@,
            ) by {
                assert(before[i] == self.checkpoints@[i]);
            }
        }
        proof {
            if id < start.len() {
                assert(self.s_checkpoints() =~= old(self).s_checkpoints().take(id as int));
            } else {
                assert(self.s_checkpoints() =~= old(self).s_checkpoints());
            }
        }
    }
}

// ---------------------------------------------------------------------------
// Breaking long lines
// ---------------------------------------------------------------------------

/// The bytes of a character in UTF-8.
pub open spec fn char_bytes(c: char) -> nat {
    if (c as u32) < 0x80 {
        1
    } else if (c as u32) < 0x800 {
        2
    } else if (c as u32) < 0x10000 {
        3
    } else {
        4
    }
}

/// The bytes of a text in UTF-8.
pub open spec fn text_bytes(s: Seq<char>) -> nat
    decreases s.len(),
{
    if s.len() == 0 {
        0
    } else {
        text_bytes(s.drop_last()) + char_bytes(s.last())
    }
}

/// Whether a text has more than one line, or a line that is too long.
pub open spec fn too_long(s: Seq<char>) -> bool {
    ||| exists|i: int| 0 <= i < s.len() - 1 && s[i] == '\n'
    ||| text_bytes(s) > LINE_LENGTH
}

pub(crate) fn is_too_long(s: &str) -> (r: bool)
    ensures
        r == too_long(s@),
{
    let cs: Vec<char> = crate::text::to_chars(s);
    let n: usize = cs.len();
    let mut bytes: usize = 0;
    let mut over: bool = false;
    let mut lines: bool = false;
    for i in 0..n
        invariant
            n == cs@.len(),
            over == (text_bytes(cs@.take(i as int)) > LINE_LENGTH),
            !over ==> bytes == text_bytes(cs@.take(i as int)),
            lines == exists|j: int| 0 <= j < i && j < n - 1 && cs@[j] == '\n',
    {
        let c: char = cs[i];
        assert(cs@.take(i + 1).drop_last() =~= cs@.take(i as int));
        let b: usize = if (c as u32) < 0x80 {
            1
        } else if (c as u32) < 0x800 {
            2
        } else if (c as u32) < 0x10000 {
            3
        } else {
            4
        };
        if !over {
            bytes = bytes + b;
            if bytes > LINE_LENGTH {
                over = true;
            }
        }
        if c == '\n' && i < n - 1 {
            assert(cs@[i as int] == '\n');
            lines = true;
        }
    }
    assert(cs@.take(n as int) =~= cs@);
    lines || over
}

/// Whether `after` is `before` with what is printed set aside.
pub open spec fn set_aside(before: Printer, after: Printer) -> bool {
    &&& after.writer@.len() == 0
    &&& after == (Printer { writer: after.writer, backup_writer: before.writer, ..before })
}

/// The printer `p` with what `before` had set aside put back.
pub open spec fn put_back(before: Printer, p: Printer) -> Printer {
    Printer { writer: p.backup_writer, backup_writer: before.backup_writer, ..p }
}

/// Whether `after` is `before` with its numbers remembered.
pub open spec fn remembered<M: Memoize>(before: M, after: M) -> bool {
    &&& after.s_wf()
    &&& after.s_memo() == before.s_memo()
    &&& after.s_next_id() == before.s_next_id()
    &&& after.s_checkpoints() == before.s_checkpoints().push(before.s_memo())
}

/// Whether `after` is `before` gone back to the numbers remembered at `id`.
pub open spec fn went_back<M: Memoize>(before: M, id: nat, after: M) -> bool {
    &&& after.s_wf()
    &&& after.s_next_id() == before.s_next_id()
    &&& id < before.s_checkpoints().len() ==> {
        &&& after.s_memo() == before.s_checkpoints()[id as int]
        &&& after.s_checkpoints() == before.s_checkpoints().take(id as int)
    }
    &&& id >= before.s_checkpoints().len() ==> {
        &&& after.s_memo() == before.s_memo()
        &&& after.s_checkpoints() == before.s_checkpoints()
    }
}

impl Printer {
    /// Prints with `f(0)` to `f(n - 1)`, with `sep` between, on one line. Where
    /// `adaptable` and that is too long or has several lines, goes back to the
    /// numbers of before and prints each part on a line of its own instead.
    /// Stops at an error of `f`.
    pub fn sep_adaptable<M: Memoize, T: FnMut(&mut Printer, usize, &mut M) -> fmt::Result>(
        &mut self,
        f: &mut T,
        n: usize,
        sep: &str,
        memoizer: &mut M,
        adaptable: bool,
    ) -> (r: fmt::Result)
        requires
            forall|m: &mut Printer, i: usize, k: &mut M| #[trigger]
                call_requires(*old(f), (m, i, k)),
            old(memoizer).s_wf(),
            old(self).indentation * 2 <= usize::MAX,
            forall|m: &mut Printer, i: usize, k: &mut M| #[trigger]
                call_ensures(*old(f), (m, i, k), Ok(())) && m.indentation * 2 <= usize::MAX
                    ==> final(m).indentation * 2 <= usize::MAX,
            forall|m: &mut Printer, i: usize, k: &mut M| #[trigger]
                call_ensures(*old(f), (m, i, k), Ok(())) && k.s_wf() ==> final(k).s_wf(),
        ensures
            exists|p0: Printer, k0: M, p1: Printer, k1: M, q: fmt::Result|
                {
                    &&& #[trigger] set_aside(*old(self), p0)
                    &&& #[trigger] remembered(*old(memoizer), k0)
                    &&& #[trigger] reached(p1, k1, q)
                    &&& exists|ms: Seq<&mut Printer>, ks: Seq<&mut M>|
                        {
                            &&& #[trigger] ms.len() == #[trigger] ks.len()
                            &&& ms.len() <= n
                            &&& ms.len() > 0 ==> {
                                &&& *ms[0] == p0
                                &&& *ks[0] == k0
                                &&& p1 == *final(ms.last())
                                &&& k1 == *final(ks.last())
                                &&& call_ensures(*old(f), (ms.last(), (ms.len() - 1) as usize, ks.last()), q)
                            }
                            &&& ms.len() == 0 ==> q is Ok && n == 0 && p1 == p0 && k1 == k0
                            &&& forall|j: int|
                                #![trigger ms[j]]
                                0 <= j < ms.len() - 1 ==> {
                                    &&& call_ensures(*old(f), (ms[j], j as usize, ks[j]), Ok(()))
                                    &&& *ks[j + 1] == *final(ks[j])
                                    &&& wrote(
                                        *final(ms[j]),
                                        between(sep@, false, final(ms[j]).indentation),
                                        *ms[j + 1],
                                    )
                                }
                            &&& q is Ok ==> ms.len() == n
                        }
                    &&& match q {
                        Err(_) => r == q && *final(self) == p1 && *final(memoizer) == k1,
                        Ok(_) => if adaptable && too_long(p1.writer@) {
                            exists|k2: M|
                                {
                                    &&& #[trigger] went_back(
                                        k1,
                                        old(memoizer).s_checkpoints().len(),
                                        k2,
                                    )
                                    &&& exists|ns: Seq<&mut Printer>, ls: Seq<&mut M>|
                                        {
                                            &&& #[trigger] ns.len() == #[trigger] ls.len()
                                            &&& ns.len() <= n
                                            &&& ns.len() > 0 ==> {
                                                &&& *ns[0] == put_back(*old(self), p1)
                                                &&& *ls[0] == k2
                                                &&& *final(self) == *final(ns.last())
                                                &&& *final(memoizer) == *final(ls.last())
                                                &&& call_ensures(*old(f), (ns.last(), (ns.len() - 1) as usize, ls.last()), r)
                                            }
                                            &&& ns.len() == 0 ==> r is Ok && n == 0 && *final(self) == put_back(*old(self), p1) && *final(memoizer) == k2
                                            &&& forall|j: int|
                                                #![trigger ns[j]]
                                                0 <= j < ns.len() - 1 ==> {
                                                    &&& call_ensures(*old(f), (ns[j], j as usize, ls[j]), Ok(()))
                                                    &&& *ls[j + 1] == *final(ls[j])
                                                    &&& wrote(
                                                        *final(ns[j]),
                                                        between(sep@, true, final(ns[j]).indentation),
                                                        *ns[j + 1],
                                                    )
                                                }
                                            &&& r is Ok ==> ns.len() == n
                                        }
                                }
                        } else {
                            &&& r is Ok
                            &&& *final(memoizer) == k1
                            &&& wrote(put_back(*old(self), p1), p1.writer@, *final(self))
                        },
                    }
                },
    {
        let ghost before = *self;
        let mark: usize = memoizer.checkpoint();
        let ghost k0 = *memoizer;
        let mut aside: String = String::new();
        core::mem::swap(&mut aside, &mut self.backup_writer);
        self.swap_writer();
        let ghost p0 = *self;
        assert(set_aside(before, p0));
        assert(remembered(*old(memoizer), k0));
        let q: fmt::Result = self.print_all(f, n, sep, memoizer, false);
        let ghost p1 = *self;
        let ghost k1 = *memoizer;
        assert(reached(p1, k1, q));
        q?;
        self.swap_writer();
        core::mem::swap(&mut aside, &mut self.backup_writer);
        assert(*self == put_back(before, p1));
        if adaptable && is_too_long(aside.as_str()) {
            memoizer.restore(mark);
            assert(went_back(k1, old(memoizer).s_checkpoints().len(), *memoizer));
            self.print_all(f, n, sep, memoizer, true)
        } else {
            self.write_str(aside.as_str());
            Ok(())
        }
    }
}

/// Names a state that printing has reached.
pub open spec fn reached<M>(p: Printer, k: M, q: fmt::Result) -> bool {
    true
}

} // verus!
