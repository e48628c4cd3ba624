use wgpu_3dgs_editor::buffer::MaskStore;
use wgpu_3dgs_editor::buffer::SelectionBuffer;
use wgpu_3dgs_editor::buffer::word_count_for;
use wgpu_3dgs_editor::command::Command;
use wgpu_3dgs_editor::command::CommandEncoder;
use wgpu_3dgs_editor::command::CustomProgram;
use wgpu_3dgs_editor::selection::SelectionBundle;
use wgpu_3dgs_editor::selection::SelectionExpr;

fn mask_from_bits(n: u32, set: &[u32]) -> SelectionBuffer {
    let mut b = SelectionBuffer::new(n);
    for &i in set {
        b.set(i, true);
    }
    b
}

fn pattern_words(count: usize) -> Vec<u32> {
    (0..count)
        .map(|i| (i as u32).wrapping_mul(2654435761).wrapping_add(0x9e3779b9))
        .collect()
}

fn eval(
    bundle: &SelectionBundle,
    store: &mut MaskStore,
    expr: &SelectionExpr,
    dest: usize,
    n: u32,
) -> Vec<u32> {
    bundle.evaluate_now(store, expr, dest, n);
    store.download(dest).expect("download after evaluation")
}

fn word_bit(words: &[u32], i: u32) -> bool {
    (words[(i / 32) as usize] >> (i % 32)) & 1 == 1
}

#[test]
fn buffer_leaf_copies_the_referenced_buffer() {
    for n in [0u32, 32, 1024, 1056, 65536] {
        let bundle = SelectionBundle::new(vec![]);
        let mut store = MaskStore::new();
        let words = pattern_words(word_count_for(n));
        let src = store.insert(SelectionBuffer::from_words(n, words.clone()));
        let dest = store.alloc_buffer(n);
        let out = eval(&bundle, &mut store, &SelectionExpr::buffer(src), dest, n);
        assert_eq!(out, words);
        let src_after = store.download(src).expect("source download");
        assert_eq!(src_after, words);
    }
}

#[test]
fn primitive_operations_are_bitwise() {
    let n = 40u32;
    let a_bits = [0u32, 1, 5, 32, 39];
    let b_bits = [1u32, 2, 33, 39];
    let cases: [(fn(SelectionExpr, SelectionExpr) -> SelectionExpr, fn(bool, bool) -> bool); 4] = [
        (|l, r| l.union(r), |x, y| x || y),
        (|l, r| l.intersection(r), |x, y| x && y),
        (|l, r| l.difference(r), |x, y| x && !y),
        (|l, r| l.symmetric_difference(r), |x, y| x != y),
    ];
    for (build, op) in cases {
        let bundle = SelectionBundle::new(vec![]);
        let mut store = MaskStore::new();
        let a = store.insert(mask_from_bits(n, &a_bits));
        let b = store.insert(mask_from_bits(n, &b_bits));
        let dest = store.alloc_buffer(n);
        let expr = build(SelectionExpr::buffer(a), SelectionExpr::buffer(b));
        let out = eval(&bundle, &mut store, &expr, dest, n);
        for i in 0..n {
            let x = a_bits.contains(&i);
            let y = b_bits.contains(&i);
            assert_eq!(word_bit(&out, i), op(x, y), "element {i}");
        }
    }
}

#[test]
fn complement_negates_every_element_bit() {
    let n = 40u32;
    let a_bits = [0u32, 1, 5, 32, 39];
    let bundle = SelectionBundle::new(vec![]);
    let mut store = MaskStore::new();
    let a = store.insert(mask_from_bits(n, &a_bits));
    let dest = store.alloc_buffer(n);
    let expr = SelectionExpr::buffer(a).complement();
    let out = eval(&bundle, &mut store, &expr, dest, n);
    for i in 0..n {
        assert_eq!(word_bit(&out, i), !a_bits.contains(&i), "element {i}");
    }
    // Padding bits above the element count are never touched by a dispatch.
    assert_eq!(out[1] >> 8, 0);
}

#[test]
fn union_and_intersection_are_commutative_and_associative() {
    let n = 70u32;
    let a_bits = [0u32, 3, 34, 69];
    let b_bits = [1u32, 3, 35, 69];
    let c_bits = [2u32, 3, 34, 35];
    // Commutativity.
    let run = |l: usize, r: usize, inter: bool| {
        let bundle = SelectionBundle::new(vec![]);
        let mut store = MaskStore::new();
        let ids = [
            store.insert(mask_from_bits(n, &a_bits)),
            store.insert(mask_from_bits(n, &b_bits)),
            store.insert(mask_from_bits(n, &c_bits)),
        ];
        let dest = store.alloc_buffer(n);
        let le = SelectionExpr::buffer(ids[l]);
        let re = SelectionExpr::buffer(ids[r]);
        let expr = if inter {
            le.intersection(re)
        } else {
            le.union(re)
        };
        eval(&bundle, &mut store, &expr, dest, n)
    };
    assert_eq!(run(0, 1, false), run(1, 0, false));
    assert_eq!(run(0, 1, true), run(1, 0, true));

    // Associativity.
    let run3 = |left_assoc: bool, inter: bool| {
        let bundle = SelectionBundle::new(vec![]);
        let mut store = MaskStore::new();
        let a = store.insert(mask_from_bits(n, &a_bits));
        let b = store.insert(mask_from_bits(n, &b_bits));
        let c = store.insert(mask_from_bits(n, &c_bits));
        let dest = store.alloc_buffer(n);
        let (ea, eb, ec) = (
            SelectionExpr::buffer(a),
            SelectionExpr::buffer(b),
            SelectionExpr::buffer(c),
        );
        let expr = match (left_assoc, inter) {
            (true, false) => ea.union(eb).union(ec),
            (false, false) => ea.union(eb.union(ec)),
            (true, true) => ea.intersection(eb).intersection(ec),
            (false, true) => ea.intersection(eb.intersection(ec)),
        };
        eval(&bundle, &mut store, &expr, dest, n)
    };
    assert_eq!(run3(true, false), run3(false, false));
    assert_eq!(run3(true, true), run3(false, true));
}

#[test]
fn double_complement_and_de_morgan() {
    let n = 70u32;
    let a_bits = [0u32, 3, 34, 69];
    let b_bits = [1u32, 3, 35, 68];

    let bundle = SelectionBundle::new(vec![]);
    let mut store = MaskStore::new();
    let a = store.insert(mask_from_bits(n, &a_bits));
    let dest = store.alloc_buffer(n);
    let expr = SelectionExpr::buffer(a).complement().complement();
    let out = eval(&bundle, &mut store, &expr, dest, n);
    let original = store.download(a).expect("download");
    assert_eq!(out, original);

    let run = |lhs: bool| {
        let bundle = SelectionBundle::new(vec![]);
        let mut store = MaskStore::new();
        let a = store.insert(mask_from_bits(n, &a_bits));
        let b = store.insert(mask_from_bits(n, &b_bits));
        let dest = store.alloc_buffer(n);
        let (ea, eb) = (SelectionExpr::buffer(a), SelectionExpr::buffer(b));
        let expr = if lhs {
            ea.union(eb).complement()
        } else {
            ea.complement().intersection(eb.complement())
        };
        let out = eval(&bundle, &mut store, &expr, dest, n);
        (0..n).map(|i| word_bit(&out, i)).collect::<Vec<bool>>()
    };
    assert_eq!(run(true), run(false));
}

#[test]
fn selection_stubs_fill_and_clear_the_mask() {
    for n in [0u32, 1, 31, 32, 33, 10000] {
        let bundle = SelectionBundle::new(vec![
            CustomProgram::Fill(true),
            CustomProgram::Fill(false),
        ]);
        let mut store = MaskStore::new();
        let dest = store.alloc_buffer(n);
        let out = eval(
            &bundle,
            &mut store,
            &SelectionExpr::selection(0, vec![]),
            dest,
            n,
        );
        assert_eq!(out.len(), word_count_for(n));
        for i in 0..n {
            assert!(word_bit(&out, i), "element {i} of {n}");
        }
        assert_eq!(store.buffer(dest).count_ones(), n);
        if n == 33 {
            assert_eq!(out, vec![0xffffffffu32, 0x1]);
        }
        if n == 10000 {
            assert_eq!(out[312], 0xffff);
        }

        let out = eval(
            &bundle,
            &mut store,
            &SelectionExpr::selection(1, vec![]),
            dest,
            n,
        );
        assert!(out.iter().all(|w| *w == 0));
    }
}

#[test]
fn disjoint_custom_selections_union_to_their_total_count() {
    let n = 100u32;
    let bundle = SelectionBundle::new(vec![
        CustomProgram::Range(0, 30),
        CustomProgram::Range(50, 80),
    ]);
    let mut store = MaskStore::new();
    let s1 = store.alloc_buffer(n);
    let s2 = store.alloc_buffer(n);
    let dest = store.alloc_buffer(n);

    let out1 = eval(&bundle, &mut store, &SelectionExpr::selection(0, vec![]), s1, n);
    let out2 = eval(&bundle, &mut store, &SelectionExpr::selection(1, vec![]), s2, n);
    assert_eq!(store.buffer(s1).count_ones(), 30);
    assert_eq!(store.buffer(s2).count_ones(), 30);
    let _ = (out1, out2);

    let expr = SelectionExpr::buffer(s1).union(SelectionExpr::buffer(s2));
    let out = eval(&bundle, &mut store, &expr, dest, n);
    assert_eq!(store.buffer(dest).count_ones(), 60);
    for i in 0..n {
        let expected = i < 30 || (50 <= i && i < 80);
        assert_eq!(word_bit(&out, i), expected, "element {i}");
    }
}

#[test]
fn iterated_union_equals_batched_union() {
    let n = 100u32;
    let programs = vec![
        CustomProgram::Range(0, 10),
        CustomProgram::Range(10, 20),
        CustomProgram::Range(20, 30),
    ];

    // One batched three-way union.
    let bundle = SelectionBundle::new(programs.clone());
    let mut store = MaskStore::new();
    let dest = store.alloc_buffer(n);
    let expr = SelectionExpr::selection(0, vec![]).union(
        SelectionExpr::selection(1, vec![]).union(SelectionExpr::selection(2, vec![])),
    );
    let batched = eval(&bundle, &mut store, &expr, dest, n);

    // The same instances unioned into the destination one at a time; the
    // identity operand keeps what the destination already holds.
    let bundle = SelectionBundle::new(programs);
    let mut store = MaskStore::new();
    let dest = store.alloc_buffer(n);
    let mut iterated = Vec::new();
    for op in 0..3u32 {
        let expr = SelectionExpr::selection(op, vec![]).union(SelectionExpr::identity());
        iterated = eval(&bundle, &mut store, &expr, dest, n);
    }
    assert_eq!(iterated, batched);
    assert_eq!(store.buffer(dest).count_ones(), 30);
}

#[test]
fn binary_custom_sends_the_left_operand_to_the_source_slot() {
    let n = 64u32;
    let bundle = SelectionBundle::new(vec![CustomProgram::CopySource]);
    let mut store = MaskStore::new();
    let a = store.insert(mask_from_bits(n, &[0, 7, 40]));
    let b = store.insert(mask_from_bits(n, &[1, 8, 41]));
    let dest = store.alloc_buffer(n);
    let expr = SelectionExpr::buffer(a).binary(0, SelectionExpr::buffer(b), vec![]);
    let out = eval(&bundle, &mut store, &expr, dest, n);
    let left = store.download(a).expect("download");
    assert_eq!(out, left);
}

#[test]
fn unary_custom_transforms_the_destination_in_place() {
    let n = 64u32;
    let bundle = SelectionBundle::new(vec![
        CustomProgram::CopySource,
        CustomProgram::Fill(false),
    ]);
    let mut store = MaskStore::new();
    let a = store.insert(mask_from_bits(n, &[0, 7, 40]));
    let dest = store.alloc_buffer(n);

    // The source slot aliases the destination, so forwarding the source bit
    // keeps the child's result.
    let expr = SelectionExpr::buffer(a).unary(0, vec![]);
    let out = eval(&bundle, &mut store, &expr, dest, n);
    assert_eq!(out, store.download(a).expect("download"));

    let expr = SelectionExpr::buffer(a).unary(1, vec![]);
    let out = eval(&bundle, &mut store, &expr, dest, n);
    assert!(out.iter().all(|w| *w == 0));
}

#[test]
fn identity_leaves_the_destination_untouched() {
    let n = 64u32;
    let bundle = SelectionBundle::new(vec![]);
    let mut store = MaskStore::new();
    let words = pattern_words(word_count_for(n));
    let dest = store.insert(SelectionBuffer::from_words(n, words.clone()));
    let out = eval(&bundle, &mut store, &SelectionExpr::identity(), dest, n);
    assert_eq!(out, words);
}

#[test]
fn evaluate_records_without_running_and_submit_runs() {
    let n = 64u32;
    let bundle = SelectionBundle::new(vec![]);
    let mut store = MaskStore::new();
    let words = pattern_words(word_count_for(n));
    let a = store.insert(SelectionBuffer::from_words(n, words.clone()));
    let b = store.insert(mask_from_bits(n, &[2, 3]));
    let dest = store.alloc_buffer(n);

    let mut encoder = CommandEncoder::new();
    let expr = SelectionExpr::buffer(a).union(SelectionExpr::buffer(b));
    bundle.evaluate(&mut store, &mut encoder, &expr, dest, n);

    // Recording allocates the temporary and the commands, but runs nothing.
    let temp = 3usize;
    assert_eq!(store.len(), 4);
    assert_eq!(
        encoder.commands().as_slice(),
        &[
            Command::CopyBuffer { source: a, dest: temp },
            Command::CopyBuffer { source: b, dest },
            Command::Dispatch {
                op_code: 0,
                source: temp,
                dest,
                element_count: n,
                bind_groups: vec![],
            },
        ]
    );
    assert!(store
        .download(dest)
        .expect("download")
        .iter()
        .all(|w| *w == 0));

    bundle.submit(&encoder, &mut store);
    let out = store.download(dest).expect("download");
    for i in 0..n {
        let expected = word_bit(&words, i) || i == 2 || i == 3;
        assert_eq!(word_bit(&out, i), expected, "element {i}");
    }
}

#[test]
fn store_download_of_never_written_buffer_succeeds_with_zeros() {
    let mut store = MaskStore::new();
    let id = store.alloc_buffer(1000);
    let words = store.download(id).expect("download of a never-written buffer");
    assert_eq!(words.len(), word_count_for(1000));
    assert!(words.iter().all(|w| *w == 0));
}

#[test]
fn custom_dispatch_carries_its_bind_group_handles() {
    let n = 32u32;
    let bundle = SelectionBundle::new(vec![CustomProgram::Fill(true)]);
    let mut store = MaskStore::new();
    let dest = store.alloc_buffer(n);
    let mut encoder = CommandEncoder::new();
    let expr = SelectionExpr::selection(0, vec![7, 9]);
    bundle.evaluate(&mut store, &mut encoder, &expr, dest, n);
    assert_eq!(
        encoder.commands().as_slice(),
        &[Command::Dispatch {
            op_code: 5,
            source: 1,
            dest: 0,
            element_count: 32,
            bind_groups: vec![7, 9],
        }]
    );
}
