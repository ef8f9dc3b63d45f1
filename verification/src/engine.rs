//! The deduplication engine: what each incoming record means, which records
//! a run emits, and the decision procedure that drives the side effects.

use vstd::prelude::*;
use crate::lines::{
    TERMINATOR, seed_lines, seed_line_set, views, split_lines, copy_range, corrected,
    terminated_records, terminator_free, lemma_appends_extend_lines,
    lemma_seed_lines_terminator_free,
};
use crate::membership::Membership;

verus! {

/// The logical content of one raw record as read from the stream: the bytes
/// with the trailing terminator, if any, removed.
pub open spec fn record_content(chunk: Seq<u8>) -> Seq<u8> {
    if chunk.len() > 0 && chunk.last() == TERMINATOR {
        chunk.drop_last()
    } else {
        chunk
    }
}

/// The emitted form of a content line: the content with its terminator.
pub open spec fn record_output(content: Seq<u8>) -> Seq<u8> {
    content + seq![TERMINATOR]
}

/// The logical contents of a sequence of raw records.
pub open spec fn record_contents(chunks: Seq<Seq<u8>>) -> Seq<Seq<u8>> {
    chunks.map_values(|c: Seq<u8>| record_content(c))
}

/// The first occurrences of contents not yet seen, in arrival order: a
/// content already seen, or seen earlier in the same sequence, is dropped.
pub open spec fn first_occurrences(seen: Set<Seq<u8>>, contents: Seq<Seq<u8>>) -> Seq<Seq<u8>>
    decreases contents.len(),
{
    if contents.len() == 0 {
        Seq::empty()
    } else if seen.contains(contents[0]) {
        first_occurrences(seen, contents.skip(1))
    } else {
        seq![contents[0]] + first_occurrences(seen.insert(contents[0]), contents.skip(1))
    }
}

/// The seen-set after a run over the given contents.
pub open spec fn seen_after(seen: Set<Seq<u8>>, contents: Seq<Seq<u8>>) -> Set<Seq<u8>> {
    seen + contents.to_set()
}

/// The records a run emits for the given raw records: the first occurrences
/// of their contents, each with its terminator.
pub open spec fn emitted_records(seen: Set<Seq<u8>>, chunks: Seq<Seq<u8>>) -> Seq<Seq<u8>> {
    first_occurrences(seen, record_contents(chunks)).map_values(|l: Seq<u8>| record_output(l))
}

/// One more content at the end of a run extends the seen-set by exactly it.
pub proof fn lemma_seen_after_snoc(seen: Set<Seq<u8>>, contents: Seq<Seq<u8>>, x: Seq<u8>)
    ensures
        seen_after(seen, contents.push(x)) == seen_after(seen, contents).insert(x),
{
    contents.lemma_push_to_set_commute(x);
    assert(seen_after(seen, contents.push(x)) =~= seen_after(seen, contents).insert(x));
}

/// One more content at the end of a run is emitted exactly when neither the
/// prior seen-set nor any earlier content equals it.
pub proof fn lemma_first_occurrences_snoc(seen: Set<Seq<u8>>, contents: Seq<Seq<u8>>, x: Seq<u8>)
    ensures
        first_occurrences(seen, contents.push(x)) == (if seen_after(seen, contents).contains(x) {
            first_occurrences(seen, contents)
        } else {
            first_occurrences(seen, contents).push(x)
        }),
    decreases contents.len(),
{
    broadcast use vstd::seq_lib::lemma_seq_skip_contains;
    broadcast use vstd::seq_lib::lemma_seq_contains_after_push;

    if contents.len() == 0 {
        assert(contents =~= Seq::<Seq<u8>>::empty());
        assert(contents.push(x)[0] == x);
        assert(contents.push(x).skip(1) =~= Seq::<Seq<u8>>::empty());
        assert(first_occurrences(seen, Seq::<Seq<u8>>::empty()) =~= Seq::<Seq<u8>>::empty());
        assert(seen_after(seen, contents).contains(x) == seen.contains(x));
        if !seen.contains(x) {
            assert(seq![x] + first_occurrences(seen.insert(x), Seq::<Seq<u8>>::empty())
                =~= first_occurrences(seen, contents).push(x));
        }
    } else {
        let c0 = contents[0];
        let rest = contents.skip(1);
        assert(contents.push(x)[0] == c0);
        assert(contents.push(x).skip(1) =~= rest.push(x));
        assert(contents.contains(c0));
        if seen.contains(c0) {
            lemma_first_occurrences_snoc(seen, rest, x);
            assert(seen_after(seen, rest).contains(x) == seen_after(seen, contents).contains(x))
                by {
                if contents.contains(x) && !seen.contains(x) && x != c0 {
                    assert(rest.contains(x));
                }
            };
        } else {
            lemma_first_occurrences_snoc(seen.insert(c0), rest, x);
            assert(seen_after(seen.insert(c0), rest).contains(x) == seen_after(
                seen,
                contents,
            ).contains(x)) by {
                if contents.contains(x) && !seen.contains(x) && x != c0 {
                    assert(rest.contains(x));
                }
                if rest.contains(x) {
                    assert(contents.contains(x));
                }
            };
            if !seen_after(seen, contents).contains(x) {
                assert(seq![c0] + first_occurrences(seen.insert(c0), rest).push(x)
                    =~= (seq![c0] + first_occurrences(seen.insert(c0), rest)).push(x));
            }
        }
    }
}

/// A run whose every content is already seen emits nothing at all.
pub proof fn lemma_covered_input_silent(seen: Set<Seq<u8>>, contents: Seq<Seq<u8>>)
    requires
        forall|k: int| 0 <= k < contents.len() ==> seen.contains(#[trigger] contents[k]),
    ensures
        first_occurrences(seen, contents) == Seq::<Seq<u8>>::empty(),
    decreases contents.len(),
{
    broadcast use vstd::seq_lib::lemma_seq_skip_index;

    if contents.len() > 0 {
        assert(seen.contains(contents[0]));
        assert(forall|k: int| 0 <= k < contents.skip(1).len() ==> seen.contains(
            #[trigger] contents.skip(1)[k],
        ));
        lemma_covered_input_silent(seen, contents.skip(1));
    }
}

/// Idempotence of a run: after one run over some contents the seen-set
/// holds every one of them, so feeding the same contents again emits
/// nothing and appends nothing.
pub proof fn lemma_second_run_silent(seen: Set<Seq<u8>>, contents: Seq<Seq<u8>>)
    ensures
        first_occurrences(seen_after(seen, contents), contents) == Seq::<Seq<u8>>::empty(),
{
    assert(forall|k: int| 0 <= k < contents.len() ==> seen_after(seen, contents).contains(
        #[trigger] contents[k],
    )) by {
        assert(forall|k: int| 0 <= k < contents.len() ==> contents.contains(
            #[trigger] contents[k],
        ));
    };
    lemma_covered_input_silent(seen_after(seen, contents), contents);
}

/// Round trip: seeding from a file's content and then feeding the file's
/// own lines back as input suppresses every one of them.
pub proof fn lemma_round_trip(content: Seq<u8>)
    ensures
        first_occurrences(seed_line_set(content), seed_lines(content)) == Seq::<Seq<u8>>::empty(),
{
    assert(forall|k: int| 0 <= k < seed_lines(content).len() ==> seed_line_set(content).contains(
        #[trigger] seed_lines(content)[k],
    )) by {
        assert(forall|k: int| 0 <= k < seed_lines(content).len() ==> seed_lines(content).contains(
            #[trigger] seed_lines(content)[k],
        ));
    };
    lemma_covered_input_silent(seed_line_set(content), seed_lines(content));
}

/// A run's emissions account for all growth of the seen-set: the prior set
/// together with the emitted contents is exactly the set after the run.
pub proof fn lemma_seen_after_emitted(seen: Set<Seq<u8>>, contents: Seq<Seq<u8>>)
    ensures
        seen.union(first_occurrences(seen, contents).to_set()) == seen_after(seen, contents),
    decreases contents.len(),
{
    broadcast use vstd::seq_lib::lemma_seq_skip_contains;
    broadcast use vstd::seq_lib::lemma_seq_concat_contains_all_elements;

    if contents.len() == 0 {
        assert(seen.union(first_occurrences(seen, contents).to_set()) =~= seen_after(
            seen,
            contents,
        ));
    } else {
        let c0 = contents[0];
        let rest = contents.skip(1);
        assert(contents.contains(c0));
        assert(forall|y: Seq<u8>| rest.contains(y) ==> contents.contains(y));
        assert(forall|y: Seq<u8>| contents.contains(y) ==> y == c0 || rest.contains(y));
        if seen.contains(c0) {
            lemma_seen_after_emitted(seen, rest);
            assert(seen.union(first_occurrences(seen, contents).to_set()) =~= seen_after(
                seen,
                contents,
            ));
        } else {
            lemma_seen_after_emitted(seen.insert(c0), rest);
            let fo1 = first_occurrences(seen.insert(c0), rest);
            assert(first_occurrences(seen, contents) == seq![c0] + fo1);
            assert(seq![c0][0] == c0);
            assert(seen.union((seq![c0] + fo1).to_set()) =~= seen_after(seen, contents)) by {
                assert forall|y: Seq<u8>|
                    seen.union((seq![c0] + fo1).to_set()).contains(y) <==> seen_after(
                        seen,
                        contents,
                    ).contains(y) by {
                    assert((seq![c0] + fo1).contains(y) <==> y == c0 || fo1.contains(y));
                    assert(seen.insert(c0).union(fo1.to_set()).contains(y) <==> seen.insert(
                        c0,
                    ).union(rest.to_set()).contains(y));
                    assert(contents.contains(y) <==> y == c0 || rest.contains(y));
                };
            };
        }
    }
}

/// At-most-once: a run never emits a content it was seeded with, and never
/// emits the same content twice.
pub proof fn lemma_emitted_once(seen: Set<Seq<u8>>, contents: Seq<Seq<u8>>)
    ensures
        forall|k: int| 0 <= k < first_occurrences(seen, contents).len() ==> !seen.contains(
            #[trigger] first_occurrences(seen, contents)[k],
        ),
        first_occurrences(seen, contents).no_duplicates(),
    decreases contents.len(),
{
    if contents.len() > 0 {
        let c0 = contents[0];
        let rest = contents.skip(1);
        if seen.contains(c0) {
            lemma_emitted_once(seen, rest);
        } else {
            lemma_emitted_once(seen.insert(c0), rest);
            let fo1 = first_occurrences(seen.insert(c0), rest);
            let fo = seq![c0] + fo1;
            assert(first_occurrences(seen, contents) == fo);
            assert(fo[0] == c0);
            assert(forall|k: int| 1 <= k < fo.len() ==> #[trigger] fo[k] == fo1[k - 1]);
            assert(forall|k: int| 0 <= k < fo.len() ==> !seen.contains(#[trigger] fo[k]));
            assert(fo.no_duplicates()) by {
                assert(forall|i: int, j: int|
                    0 <= i < fo.len() && 0 <= j < fo.len() && i != j ==> fo[i] != fo[j]);
            };
        }
    }
}

/// Idempotence against the rewritten file: run once against a file's
/// content, append the run's records after the corrective terminator, and
/// run again from the rewritten file with the same input. The second run
/// emits nothing, so the file grows no further.
pub proof fn lemma_idempotent_rerun(c: Seq<u8>, chunks: Seq<Seq<u8>>)
    requires
        forall|k: int| 0 <= k < chunks.len() ==> terminator_free(
            record_content(#[trigger] chunks[k]),
        ),
    ensures
        ({
            let contents = record_contents(chunks);
            let appended = first_occurrences(seed_line_set(c), contents);
            let rewritten = corrected(c) + terminated_records(appended);
            first_occurrences(seed_line_set(rewritten), contents) == Seq::<Seq<u8>>::empty()
        }),
{
    broadcast use vstd::seq_lib::lemma_seq_concat_contains_all_elements;

    let contents = record_contents(chunks);
    let appended = first_occurrences(seed_line_set(c), contents);
    let rewritten = corrected(c) + terminated_records(appended);
    lemma_seed_lines_terminator_free(c);
    lemma_seen_after_emitted(seed_line_set(c), contents);
    assert(forall|k: int| 0 <= k < appended.len() ==> terminator_free(#[trigger] appended[k]))
        by {
        assert forall|k: int| 0 <= k < appended.len() implies terminator_free(
            #[trigger] appended[k],
        ) by {
            assert(appended.contains(appended[k]));
            assert(seed_line_set(c).union(appended.to_set()).contains(appended[k]));
            if seed_line_set(c).contains(appended[k]) {
                assert(seed_lines(c).contains(appended[k]));
                let i = choose|i: int|
                    0 <= i < seed_lines(c).len() && seed_lines(c)[i] == appended[k];
                assert(terminator_free(seed_lines(c)[i]));
            } else {
                assert(contents.contains(appended[k]));
                let i = choose|i: int| 0 <= i < contents.len() && contents[i] == appended[k];
                assert(contents[i] == record_content(chunks[i]));
            }
        };
    };
    lemma_appends_extend_lines(c, appended);
    assert(seed_line_set(rewritten) =~= seen_after(seed_line_set(c), contents)) by {
        assert(seed_lines(rewritten) == seed_lines(c) + appended);
        assert(forall|y: Seq<u8>| #[trigger] seed_line_set(rewritten).contains(y)
            == (seed_lines(c).contains(y) || appended.contains(y)));
    };
    lemma_second_run_silent(seed_line_set(c), contents);
}

/// A record's emitted form parses back to exactly its content.
pub proof fn lemma_output_content_round_trip(l: Seq<u8>)
    ensures
        record_content(record_output(l)) == l,
{
    assert(record_output(l).last() == TERMINATOR);
    assert(record_output(l).drop_last() =~= l);
}

/// The deduplication engine: the membership set together with the two
/// side-effect switches of a run.
pub struct Engine {
    known: Membership,
    to_file: bool,
    to_stdout: bool,
}

impl Engine {
    /// The set of contents this engine has seen.
    pub closed spec fn seen(self) -> Set<Seq<u8>> {
        self.known@
    }

    /// Whether novel records are written to the target file.
    pub closed spec fn writes_file(self) -> bool {
        self.to_file
    }

    /// Whether novel records are echoed to standard output.
    pub closed spec fn echoes(self) -> bool {
        self.to_stdout
    }

    /// A fresh engine. Novel records go to the file exactly when a target
    /// was named and this is not a dry run; they are echoed unless quiet.
    pub fn new(has_target: bool, quiet: bool, dry_run: bool) -> (e: Engine)
        ensures
            e.seen() == Set::<Seq<u8>>::empty(),
            e.writes_file() == (has_target && !dry_run),
            e.echoes() == !quiet,
    {
        Engine {
            known: Membership::new(),
            to_file: has_target && !dry_run,
            to_stdout: !quiet,
        }
    }

    /// Seed the engine with every line of the target file's existing
    /// content.
    pub fn seed(&mut self, content: &Vec<u8>)
        ensures
            final(self).seen() == old(self).seen().union(seed_line_set(content@)),
            final(self).writes_file() == old(self).writes_file(),
            final(self).echoes() == old(self).echoes(),
    {
        let ghost goal = self.known@.union(seed_line_set(content@));
        let ghost wf = self.to_file;
        let ghost ec = self.to_stdout;
        let mut ls = split_lines(content);
        proof {
            assert(views(ls@).to_set() == seed_line_set(content@));
        }
        while ls.len() > 0
            invariant
                self.known@.union(views(ls@).to_set()) == goal,
                self.to_file == wf,
                self.to_stdout == ec,
            decreases ls@.len(),
        {
            let ghost vpre = views(ls@);
            match ls.pop() {
                Some(l) => {
                    let ghost lv = l@;
                    let _ = self.known.insert(l);
                    proof {
                        assert(views(ls@) =~= vpre.drop_last());
                        vpre.drop_last().lemma_push_to_set_commute(lv);
                        assert(vpre.drop_last().push(lv) =~= vpre);
                        assert(self.known@.union(views(ls@).to_set()) =~= goal);
                    }
                },
                None => {},
            }
        }
        proof {
            assert(views(ls@).to_set() =~= Set::<Seq<u8>>::empty());
            assert(self.known@ =~= goal);
        }
    }

    /// Decide one raw record: novel content is recorded as seen and handed
    /// back with its terminator for emission; known content is suppressed.
    pub fn process_chunk(&mut self, chunk: &Vec<u8>) -> (emitted: Option<Vec<u8>>)
        ensures
            final(self).writes_file() == old(self).writes_file(),
            final(self).echoes() == old(self).echoes(),
            final(self).seen() == old(self).seen().insert(record_content(chunk@)),
            (emitted is Some) == !old(self).seen().contains(record_content(chunk@)),
            emitted matches Some(out) ==> out@ == record_output(record_content(chunk@)),
    {
        let n: usize = if chunk.len() > 0 && chunk[chunk.len() - 1] == TERMINATOR {
            chunk.len() - 1
        } else {
            chunk.len()
        };
        let content = copy_range(chunk, 0, n);
        proof {
            assert(content@ =~= record_content(chunk@));
        }
        let novel = self.known.insert(content);
        if novel {
            let mut out = copy_range(chunk, 0, n);
            out.push(TERMINATOR);
            proof {
                assert(out@ =~= record_output(record_content(chunk@)));
            }
            Some(out)
        } else {
            None
        }
    }

    /// Process a whole sequence of raw records. Returns the records to
    /// append to the file and the records to echo, in arrival order: the
    /// first occurrences of novel contents, each with its terminator, go to
    /// the file output exactly when the engine writes to a file, and to the
    /// echo output exactly when it echoes.
    pub fn run(&mut self, input: &Vec<Vec<u8>>) -> (out: (Vec<Vec<u8>>, Vec<Vec<u8>>))
        ensures
            final(self).writes_file() == old(self).writes_file(),
            final(self).echoes() == old(self).echoes(),
            final(self).seen() == seen_after(
                old(self).seen(),
                record_contents(views(input@)),
            ),
            views(out.0@) == (if old(self).writes_file() {
                emitted_records(old(self).seen(), views(input@))
            } else {
                Seq::<Seq<u8>>::empty()
            }),
            views(out.1@) == (if old(self).echoes() {
                emitted_records(old(self).seen(), views(input@))
            } else {
                Seq::<Seq<u8>>::empty()
            }),
    {
        let ghost seen0 = self.known@;
        let ghost wf = self.to_file;
        let ghost ec = self.to_stdout;
        let mut file_out: Vec<Vec<u8>> = Vec::new();
        let mut echo_out: Vec<Vec<u8>> = Vec::new();
        let mut i: usize = 0;
        proof {
            assert(views(input@).take(0) =~= Seq::<Seq<u8>>::empty());
            assert(record_contents(Seq::<Seq<u8>>::empty()) =~= Seq::<Seq<u8>>::empty());
            assert(Seq::<Seq<u8>>::empty().to_set() =~= Set::<Seq<u8>>::empty());
            assert(seen_after(seen0, Seq::<Seq<u8>>::empty()) =~= seen0);
            assert(emitted_records(seen0, Seq::<Seq<u8>>::empty()) =~= Seq::<Seq<u8>>::empty());
            assert(views(file_out@) =~= Seq::<Seq<u8>>::empty());
        }
        while i < input.len()
            invariant
                i <= input@.len(),
                self.to_file == wf,
                self.to_stdout == ec,
                self.known@ == seen_after(seen0, record_contents(views(input@).take(i as int))),
                views(file_out@) == (if wf {
                    emitted_records(seen0, views(input@).take(i as int))
                } else {
                    Seq::<Seq<u8>>::empty()
                }),
                views(echo_out@) == (if ec {
                    emitted_records(seen0, views(input@).take(i as int))
                } else {
                    Seq::<Seq<u8>>::empty()
                }),
            decreases input@.len() - i,
    {
            let ghost pre = views(input@).take(i as int);
            let ghost chv = input@[i as int]@;
            let emitted = self.process_chunk(&input[i]);
            proof {
                assert(views(input@).take(i + 1) =~= pre.push(chv));
                assert(record_contents(pre.push(chv)) =~= record_contents(pre).push(
                    record_content(chv),
                ));
                lemma_seen_after_snoc(seen0, record_contents(pre), record_content(chv));
                lemma_first_occurrences_snoc(seen0, record_contents(pre), record_content(chv));
            }
            match emitted {
                Some(line) => {
                    proof {
                        assert(first_occurrences(seen0, record_contents(pre.push(chv)))
                            =~= first_occurrences(seen0, record_contents(pre)).push(
                            record_content(chv),
                        ));
                        assert(emitted_records(seen0, pre.push(chv)) =~= emitted_records(
                            seen0,
                            pre,
                        ).push(record_output(record_content(chv))));
                    }
                    if self.to_file {
                        let cp = copy_range(&line, 0, line.len());
                        proof {
                            assert(cp@ =~= line@);
                        }
                        file_out.push(cp);
                        proof {
                            assert(views(file_out@) =~= emitted_records(seen0, pre.push(chv)));
                        }
                    }
                    if self.to_stdout {
                        echo_out.push(line);
                        proof {
                            assert(views(echo_out@) =~= emitted_records(seen0, pre.push(chv)));
                        }
                    }
                },
                None => {
                    proof {
                        assert(emitted_records(seen0, pre.push(chv)) =~= emitted_records(
                            seen0,
                            pre,
                        ));
                    }
                },
            }
            i += 1;
        }
        proof {
            assert(views(input@).take(input@.len() as int) =~= views(input@));
        }
        (file_out, echo_out)
    }

    /// Whether novel records are to be written to the target file.
    pub fn writes_to_file(&self) -> (r: bool)
        ensures
            r == self.writes_file(),
    {
        self.to_file
    }

    /// Whether novel records are to be echoed to standard output.
    pub fn echoes_output(&self) -> (r: bool)
        ensures
            r == self.echoes(),
    {
        self.to_stdout
    }
}

} // verus!
