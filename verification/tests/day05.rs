use advent::day05::{
    advance_ranges, parse, parse_line_of_numbers, parse_mapping, parse_section, solve, solve2,
    translate_ranges, try_translate_range, MapLine, Range, Res,
};

const ALMANAC: &str = "\
seeds: 79 14 55 13

seed-to-soil map:
50 98 2
52 50 48

soil-to-fertilizer map:
0 15 37
37 52 2
39 0 15

fertilizer-to-water map:
49 53 8
0 11 42
42 0 7
57 7 4

water-to-light map:
88 18 7
18 25 70

light-to-temperature map:
45 77 23
81 45 19
68 64 13

temperature-to-humidity map:
0 69 1
1 0 69

humidity-to-location map:
60 56 37
56 93 4
";

#[test]
fn try_range_apply_test() {
    let ml = MapLine {
        dest: 200,
        src: 100,
        len: 10,
    };
    // wholly inside
    assert_eq!(
        vec![Res::Mapped(Range { start: 201, len: 2 })],
        try_translate_range(Range { start: 101, len: 2 }, ml)
    );
    // touching
    assert_eq!(
        vec![Res::Mapped(Range {
            start: 200,
            len: 10
        })],
        try_translate_range(
            Range {
                start: 100,
                len: 10
            },
            ml
        )
    );
    // wholly outside
    assert_eq!(
        vec![Res::Unmapped(Range { start: 145, len: 5 })],
        try_translate_range(Range { start: 145, len: 5 }, ml)
    );
    assert_eq!(
        vec![Res::Unmapped(Range { start: 5, len: 5 })],
        try_translate_range(Range { start: 5, len: 5 }, ml)
    );
    // touching
    assert_eq!(
        vec![Res::Unmapped(Range { start: 95, len: 5 })],
        try_translate_range(Range { start: 95, len: 5 }, ml)
    );
    assert_eq!(
        vec![Res::Unmapped(Range { start: 110, len: 5 })],
        try_translate_range(Range { start: 110, len: 5 }, ml)
    );
    // exceeding
    assert_eq!(
        vec![
            Res::Unmapped(Range { start: 85, len: 15 }),
            Res::Mapped(Range {
                start: 200,
                len: 10
            }),
            Res::Unmapped(Range {
                start: 110,
                len: 15
            })
        ],
        try_translate_range(Range { start: 85, len: 40 }, ml)
    );
    // exceeding left
    assert_eq!(
        vec![
            Res::Unmapped(Range { start: 90, len: 10 }),
            Res::Mapped(Range { start: 200, len: 5 }),
        ],
        try_translate_range(Range { start: 90, len: 15 }, ml)
    );
    // touching
    assert_eq!(
        vec![
            Res::Unmapped(Range { start: 90, len: 10 }),
            Res::Mapped(Range {
                start: 200,
                len: 10
            }),
        ],
        try_translate_range(Range { start: 90, len: 20 }, ml)
    );
    // exceeding right
    assert_eq!(
        vec![
            Res::Mapped(Range { start: 205, len: 5 }),
            Res::Unmapped(Range {
                start: 110,
                len: 30
            })
        ],
        try_translate_range(
            Range {
                start: 105,
                len: 35
            },
            ml
        )
    );
    // touching
    assert_eq!(
        vec![
            Res::Mapped(Range {
                start: 200,
                len: 10
            }),
            Res::Unmapped(Range {
                start: 110,
                len: 30
            })
        ],
        try_translate_range(
            Range {
                start: 100,
                len: 40
            },
            ml
        )
    );
}

#[test]
fn almanac_of_the_example() {
    let (seeds, maps) = parse(ALMANAC);
    assert_eq!(vec![79, 14, 55, 13], seeds);
    assert_eq!(7, maps.len());
    assert_eq!(vec![MapLine { dest: 50, src: 98, len: 2 }, MapLine { dest: 52, src: 50, len: 48 }], maps[0]);
    assert_eq!(2, maps[6].len());
    assert_eq!(35, solve(ALMANAC));
    assert_eq!(46, solve2(ALMANAC));
}

#[test]
fn maps_move_what_their_lines_touch() {
    assert_eq!(vec![1, -2, 3], parse_line_of_numbers("seeds: 1 -2 x 3"));
    assert_eq!(MapLine { dest: 50, src: 98, len: 2 }, parse_mapping("50 98 2"));
    assert_eq!(vec![MapLine { dest: 0, src: 15, len: 37 }], parse_section("soil-to-fertilizer map:\n\n0 15 37\n"));
    let ms = vec![MapLine { dest: 50, src: 98, len: 2 }, MapLine { dest: 52, src: 50, len: 48 }];
    let rs = vec![Range { start: 79, len: 14 }, Range { start: 96, len: 4 }, Range { start: 10, len: 1 }];
    // the pieces that a line has moved come first, in the order in which they were moved
    assert_eq!(
        vec![Range { start: 50, len: 2 }, Range { start: 81, len: 14 }, Range { start: 98, len: 2 }, Range { start: 10, len: 1 }],
        translate_ranges(rs.clone(), ms.clone())
    );
    assert_eq!(10, advance_ranges(vec![ms], rs));
    assert_eq!(7, advance_ranges(vec![], vec![Range { start: 9, len: 1 }, Range { start: 7, len: 1 }]));
}
