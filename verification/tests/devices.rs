use advent_puzzles::devices::Memo;
use advent_puzzles::devices::{count_ways, parse_graph, part1, part2, words};

const EXAMPLE: &str = "\
aaa: you hhh
you: bbb ccc
bbb: ddd eee
ccc: ddd eee fff
ddd: ggg
eee: out
fff: out
ggg: out
hhh: ccc fff iii
iii: out";

const EXAMPLE2: &str = "\
svr: aaa bbb
aaa: fft
fft: ccc
bbb: tty
tty: ccc
ccc: ddd eee
ddd: hub
hub: fff
eee: dac
dac: fff
fff: ggg hhh
ggg: out
hhh: out";

fn names(list: &[&str]) -> Vec<Vec<u8>> {
    list.iter().map(|s| s.as_bytes().to_vec()).collect()
}

#[test]
fn day11_test_parse() {
    let graph = parse_graph(EXAMPLE);
    assert_eq!(graph.get("you"), Some(&names(&["bbb", "ccc"])));
    assert_eq!(graph.get("bbb"), Some(&names(&["ddd", "eee"])));
}

#[test]
fn day11_test_part1() {
    assert_eq!(part1(EXAMPLE), Some(5));
}

#[test]
fn day11_test_part2() {
    assert_eq!(part2(EXAMPLE2), Some(2));
}

#[test]
fn lines_that_are_passed_over() {
    let graph = parse_graph("a: b\n\nno colon here\nx: y: z\n  c :  d\te  \na: q");
    assert_eq!(graph.names, names(&["a", "c", "a"]));
    // the last line of a name counts
    assert_eq!(graph.get("a"), Some(&names(&["q"])));
    assert_eq!(graph.get("c"), Some(&names(&["d", "e"])));
    assert_eq!(graph.get("b"), None);
    assert_eq!(words(b"  x \t yz\n"), names(&["x", "yz"]));
    assert_eq!(words(b""), names(&[]));
}

#[test]
fn ways_through_small_graphs() {
    assert_eq!(part1(""), Some(0));
    assert_eq!(part1("you: out"), Some(1));
    assert_eq!(part1("you: out out"), Some(2));
    assert_eq!(part1("you: a b\na: out\nb: a"), Some(2));
    // the signal stops at `out`
    assert_eq!(part1("you: out\nout: you"), Some(1));
    // a loop: only the ways of at most as many steps as there are devices count
    assert_eq!(part1("you: you out"), Some(1));
    assert_eq!(part2("svr: dac\ndac: fft\nfft: out"), Some(1));
    assert_eq!(part2("svr: dac\ndac: out"), Some(0));
    assert_eq!(part2("svr: dac fft\ndac: fft out\nfft: dac out"), Some(2));
    let graph = parse_graph("a: b c\nb: d\nc: d\nd: e");
    assert_eq!(count_ways(&graph, b"a", b"e", &names(&[])), Some(2));
    assert_eq!(count_ways(&graph, b"a", b"e", &names(&["b"])), Some(1));
    assert_eq!(count_ways(&graph, b"a", b"e", &names(&["b", "c"])), Some(0));
    assert_eq!(count_ways(&graph, b"a", b"a", &names(&[])), Some(1));
    assert_eq!(count_ways(&graph, b"a", b"a", &names(&["a"])), Some(0));
}

#[test]
fn a_new_table_holds_no_count() {
    let memo = Memo::new(2, 3, 4);
    assert_eq!(memo.known.len(), 2);
    for level in &memo.known {
        assert_eq!(level.len(), 3);
        for row in level {
            assert_eq!(row, &vec![None; 4]);
        }
    }
    assert!(Memo::new(0, 3, 4).known.is_empty());
}
