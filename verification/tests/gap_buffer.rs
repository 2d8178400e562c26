use kyute::GapBuffer;

#[test]
fn gap_buffer_edits_around_the_gap() {
    let mut buffer: GapBuffer<char> = GapBuffer::new();
    assert_eq!(buffer.len(), 0);
    for (i, c) in "held".chars().enumerate() {
        buffer.insert(i, c);
    }
    // "held" -> "hello world"
    buffer.remove(3);
    buffer.insert(3, 'l');
    buffer.insert(4, 'o');
    for (i, c) in " world".chars().enumerate() {
        buffer.insert(5 + i, c);
    }
    let text: String = buffer.iter(0, buffer.len()).into_iter().collect();
    assert_eq!(text, "hello world");
    assert_eq!(buffer.remove(0), 'h');
    buffer.insert(0, 'j');
    buffer.set(10, 'y');
    assert_eq!(*buffer.get(0), 'j');
    assert_eq!(*buffer.get(10), 'y');
    let middle: String = buffer.iter(2, 5).into_iter().collect();
    assert_eq!(middle, "llo");
    buffer.move_gap(11);
    buffer.move_gap(0);
    let text: String = buffer.iter(0, buffer.len()).into_iter().collect();
    assert_eq!(text, "jello worly");
    assert_eq!(buffer.remove(10), 'y');
    assert_eq!(buffer.len(), 10);
    let empty: GapBuffer<u8> = Default::default();
    assert_eq!(empty.len(), 0);
    assert!(empty.iter(0, 0).is_empty());
}
