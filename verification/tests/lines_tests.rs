use wzip::lines::{collect_lines, contains_subseq, grep, read_line, write_lines_reversed};
use wzip::stack::Stack;

#[test]
fn read_line_splits_at_newline() {
    let input = b"ab\ncd".to_vec();
    let (first, after_first) = read_line(&input, 0).unwrap();
    assert_eq!(first, b"ab\n".to_vec());
    assert_eq!(after_first, 3);
    let (second, after_second) = read_line(&input, after_first).unwrap();
    assert_eq!(second, b"cd".to_vec());
    assert_eq!(after_second, 5);
    assert_eq!(read_line(&input, after_second), None);
}

#[test]
fn read_line_keeps_empty_lines() {
    let input = b"\n\nx\n".to_vec();
    let (first, after_first_nl) = read_line(&input, 0).unwrap();
    assert_eq!(first, b"\n".to_vec());
    let (second, after_second_nl) = read_line(&input, after_first_nl).unwrap();
    assert_eq!(second, b"\n".to_vec());
    let (third, after_third_nl) = read_line(&input, after_second_nl).unwrap();
    assert_eq!(third, b"x\n".to_vec());
    assert_eq!(read_line(&input, after_third_nl), None);
}

#[test]
fn stack_push_pop() {
    let stack: Stack<u32> = Stack::new();
    assert!(stack.pop().is_none());
    let stack = stack.push(1);
    let stack = stack.push(2);
    let (top, rest) = stack.pop().unwrap();
    assert_eq!(*top, 2);
    let (next, rest) = rest.pop().unwrap();
    assert_eq!(*next, 1);
    assert!(rest.pop().is_none());
}

#[test]
fn stack_sharing_keeps_the_old_stack() {
    let base: Stack<u8> = Stack::new().push(7);
    let taller = base.push(8);
    let (top_of_base, _) = base.pop().unwrap();
    assert_eq!(*top_of_base, 7);
    let (top_of_taller, _) = taller.pop().unwrap();
    assert_eq!(*top_of_taller, 8);
}

#[test]
fn reverse_lines_of_a_file() {
    let input = b"one\ntwo\nthree\n".to_vec();
    let stack = collect_lines(&input);
    let reversed = write_lines_reversed(stack);
    assert_eq!(reversed, b"three\ntwo\none\n".to_vec());
}

#[test]
fn reverse_without_trailing_newline() {
    let input = b"one\ntwo".to_vec();
    let reversed = write_lines_reversed(collect_lines(&input));
    assert_eq!(reversed, b"twoone\n".to_vec());
}

#[test]
fn reverse_of_empty_input_is_empty() {
    let input: Vec<u8> = vec![];
    let reversed = write_lines_reversed(collect_lines(&input));
    assert_eq!(reversed, Vec::<u8>::new());
}

#[test]
fn contains_subseq_basics() {
    assert!(contains_subseq(&b"hello".to_vec(), &b"ell".to_vec()));
    assert!(contains_subseq(&b"hello".to_vec(), &b"hello".to_vec()));
    assert!(contains_subseq(&b"hello".to_vec(), &b"".to_vec()));
    assert!(!contains_subseq(&b"hello".to_vec(), &b"hela".to_vec()));
    assert!(!contains_subseq(&b"ab".to_vec(), &b"abc".to_vec()));
}

#[test]
fn grep_finds_matching_lines() {
    let input = b"foo\nbar\nfood\n".to_vec();
    let matches = grep(&input, &b"oo".to_vec());
    assert_eq!(matches, vec![b"foo\n".to_vec(), b"food\n".to_vec()]);
}

#[test]
fn grep_is_case_sensitive() {
    let input = b"Foo\nfoo\n".to_vec();
    let matches = grep(&input, &b"foo".to_vec());
    assert_eq!(matches, vec![b"foo\n".to_vec()]);
}

#[test]
fn grep_empty_term_matches_all_lines() {
    let input = b"a\nb\n".to_vec();
    let matches = grep(&input, &b"".to_vec());
    assert_eq!(matches, vec![b"a\n".to_vec(), b"b\n".to_vec()]);
}

#[test]
fn grep_can_match_across_the_newline() {
    let input = b"end\nstart".to_vec();
    let matches = grep(&input, &b"d\n".to_vec());
    assert_eq!(matches, vec![b"end\n".to_vec()]);
}
