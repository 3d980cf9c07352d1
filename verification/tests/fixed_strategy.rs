use oni::error::StrategyError;
use oni::strategy::fixed::{
    apply, apply_into, choose_block_size, copy_start, delta, signatures, strong_checksum_window,
    weak_checksum_window, DeltaScanner, Recipe, RecipeChunk, SignatureTable, Window,
};

#[test]
fn block_size_is_clamped_to_the_configured_range() {
    assert_eq!(choose_block_size(0, 0), 4 * 1024);
    assert_eq!(choose_block_size(16, 16), 4 * 1024);
    assert_eq!(choose_block_size(u64::MAX, u64::MAX), 4 * 1024 * 1024);
}

#[test]
fn identical_inputs_produce_copy_chunks() {
    let basis = b"abcdefgh".to_vec();
    let signatures = signatures(&basis, 4);

    let recipe = delta(&basis, &signatures);

    assert_eq!(
        recipe.chunks,
        vec![
            RecipeChunk::Copy {
                block_index: 0,
                len: 4,
            },
            RecipeChunk::Copy {
                block_index: 1,
                len: 4,
            },
        ]
    );
}

#[test]
fn inserted_prefix_and_suffix_keep_middle_copies() {
    let basis = b"abcd1234wxyz".to_vec();
    let source = b"zzabcd1234wxyzyy".to_vec();
    let signatures = signatures(&basis, 4);

    let recipe = delta(&source, &signatures);
    let reconstructed = apply(&recipe, &basis).unwrap();

    assert_eq!(reconstructed, source);
    assert_eq!(
        recipe.chunks,
        vec![
            RecipeChunk::Literal(b"zz".to_vec()),
            RecipeChunk::Copy {
                block_index: 0,
                len: 4,
            },
            RecipeChunk::Copy {
                block_index: 1,
                len: 4,
            },
            RecipeChunk::Copy {
                block_index: 2,
                len: 4,
            },
            RecipeChunk::Literal(b"yy".to_vec()),
        ]
    );
}

#[test]
fn equal_size_changed_tail_becomes_literal_data() {
    let basis = b"abcdwxyz".to_vec();
    let source = b"abcd1234".to_vec();
    let signatures = signatures(&basis, 4);

    let recipe = delta(&source, &signatures);
    let reconstructed = apply(&recipe, &basis).unwrap();

    assert_eq!(reconstructed, source);
    assert_eq!(
        recipe.chunks,
        vec![
            RecipeChunk::Copy {
                block_index: 0,
                len: 4,
            },
            RecipeChunk::Literal(b"1234".to_vec()),
        ]
    );
}

#[test]
fn short_inputs_fall_back_to_one_literal_chunk() {
    let basis = b"abcdefgh".to_vec();
    let source = b"oni".to_vec();
    let signatures = signatures(&basis, 4);

    let recipe = delta(&source, &signatures);

    assert_eq!(recipe.chunks, vec![RecipeChunk::Literal(source)]);
}

#[test]
fn empty_sources_and_empty_blocks_give_empty_recipes() {
    let table = signatures(b"abcdefgh", 4);
    assert!(delta(b"", &table).chunks.is_empty());

    let sizeless = signatures(b"abcdefgh", 0);
    assert!(sizeless.blocks().is_empty());
    assert!(delta(b"abcdefgh", &sizeless).chunks.is_empty());
}

#[test]
fn short_last_blocks_are_listed_but_not_matched() {
    let table = signatures(b"abcdef", 4);
    assert_eq!(table.block_size(), 4);
    assert_eq!(table.blocks().len(), 2);
    assert_eq!(table.blocks()[1].block_index, 1);
    assert_eq!(table.blocks()[1].len, 2);

    let recipe = delta(b"abcdef", &table);
    assert_eq!(
        recipe.chunks,
        vec![
            RecipeChunk::Copy {
                block_index: 0,
                len: 4,
            },
            RecipeChunk::Literal(b"ef".to_vec()),
        ]
    );
}

#[test]
fn equal_blocks_are_copied_from_the_first() {
    let table = signatures(b"abcdabcdabcd", 4);
    let recipe = delta(b"abcd", &table);
    assert_eq!(
        recipe.chunks,
        vec![RecipeChunk::Copy {
            block_index: 0,
            len: 4,
        }]
    );
}

#[test]
fn scanning_in_pieces_is_scanning_the_whole() {
    let basis: Vec<u8> = (0..9000usize).map(|i| (i * i % 249) as u8).collect();
    let mut source = basis[1000..5000].to_vec();
    source.extend_from_slice(b"something new");
    source.extend_from_slice(&basis[..2500]);
    let table = signatures(&basis, 512);

    let whole = delta(&source, &table);
    let mut scanner = DeltaScanner::new(&table);
    for piece in source.chunks(37) {
        scanner.push_all(piece);
    }

    assert_eq!(scanner.finish(), whole);
    assert_eq!(apply(&whole, &basis).unwrap(), source);
}

#[test]
fn tables_can_be_built_block_by_block() {
    let basis = b"abcdefghij";
    let mut table = SignatureTable::empty(4);
    for block in basis.chunks(4) {
        table = table.with_block(block);
    }
    assert_eq!(table.clone(), signatures(basis, 4));
    assert_eq!(table, signatures(basis, 4));
}

#[test]
fn copies_past_the_basis_are_refused() {
    let recipe = Recipe {
        block_size: 4,
        chunks: vec![
            RecipeChunk::Literal(b"ok".to_vec()),
            RecipeChunk::Copy {
                block_index: 2,
                len: 4,
            },
        ],
    };
    assert_eq!(
        apply(&recipe, b"abcdefghij"),
        Err(StrategyError::InvalidBlockReference { block_index: 2 })
    );
    assert_eq!(apply(&recipe, b"abcdefghijkl").unwrap(), b"okijkl");
}

#[test]
fn copies_whose_start_overflows_are_refused() {
    let recipe = Recipe {
        block_size: usize::MAX,
        chunks: vec![RecipeChunk::Copy {
            block_index: usize::MAX,
            len: 0,
        }],
    };
    assert_eq!(
        apply(&recipe, b""),
        Err(StrategyError::InvalidBlockReference {
            block_index: usize::MAX
        })
    );
    assert_eq!(copy_start(3, 4096).unwrap(), 12288);
}

#[test]
fn empty_copies_need_no_basis() {
    let recipe = Recipe {
        block_size: 4,
        chunks: vec![RecipeChunk::Copy {
            block_index: 9,
            len: 0,
        }],
    };
    assert_eq!(apply(&recipe, b"").unwrap(), b"");
}

#[test]
fn windows_slide_in_their_ring() {
    let mut window = Window::new(3);
    assert!(window.is_empty());
    assert_eq!(window.slide(b'x'), None);
    for byte in b"abc" {
        window.push(*byte);
    }
    assert_eq!(window.len(), 3);
    assert_eq!(window.slide(b'd'), Some(b'a'));
    assert_eq!(window.slide(b'e'), Some(b'b'));
    assert_eq!(window.to_vec(), b"cde");
    let (head, tail) = window.as_slices();
    assert_eq!([head, tail].concat(), b"cde");
    assert_eq!(
        weak_checksum_window(&window),
        oni::checksum::weak_checksum(b"cde")
    );
    assert_eq!(
        strong_checksum_window(&window),
        oni::digest::strong_checksum(b"cde")
    );
    window.clear();
    assert!(window.is_empty());
}

#[test]
fn rebuilt_bytes_follow_what_is_there() {
    let recipe = Recipe {
        block_size: 4,
        chunks: vec![
            RecipeChunk::Copy {
                block_index: 1,
                len: 4,
            },
            RecipeChunk::Literal(b"-".to_vec()),
            RecipeChunk::Copy {
                block_index: 0,
                len: 2,
            },
        ],
    };
    let mut out = b"> ".to_vec();
    assert_eq!(apply_into(&recipe, b"abcdefgh", &mut out), Ok(()));
    assert_eq!(out, b"> efgh-ab");
}

#[test]
fn refused_copies_leave_what_came_before() {
    let refused = |copy: RecipeChunk, block_size: usize| {
        let recipe = Recipe {
            block_size,
            chunks: vec![
                RecipeChunk::Literal(b"ok".to_vec()),
                copy,
                RecipeChunk::Literal(b"never".to_vec()),
            ],
        };
        let mut out = Vec::new();
        let outcome = apply_into(&recipe, b"abcdefghij", &mut out);
        (outcome, out)
    };

    // Two bytes of the block are there.
    let copy = RecipeChunk::Copy {
        block_index: 2,
        len: 4,
    };
    let (outcome, out) = refused(copy, 4);
    assert_eq!(
        outcome,
        Err(StrategyError::InvalidBlockReference { block_index: 2 })
    );
    assert_eq!(out, b"okij");

    // The block starts past the end.
    let copy = RecipeChunk::Copy {
        block_index: 3,
        len: 1,
    };
    let (outcome, out) = refused(copy, 4);
    assert_eq!(
        outcome,
        Err(StrategyError::InvalidBlockReference { block_index: 3 })
    );
    assert_eq!(out, b"ok");

    // The start of the block does not fit in 64 bits.
    let copy = RecipeChunk::Copy {
        block_index: usize::MAX,
        len: 0,
    };
    let (outcome, out) = refused(copy, usize::MAX);
    assert_eq!(
        outcome,
        Err(StrategyError::InvalidBlockReference {
            block_index: usize::MAX
        })
    );
    assert_eq!(out, b"ok");
}
