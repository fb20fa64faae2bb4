use minihttp::traits::{Channel, ChannelError, StringChannel};

#[test]
fn test_readline() {
    let mut buffer = vec![0u8; 128];
    let mut small_buffer = vec![0u8; 8];

    {
        let mut channel = StringChannel::new("This is a test string\r\n");
        let res = channel.read_string_until(&mut buffer, "\r\n").unwrap();
        assert_eq!(res, "This is a test string");
    }
    {
        let mut channel = StringChannel::new("This is a test string\r\nMore Data\r\n");
        {
            let res = channel.read_string_until(&mut buffer, "\r\n").unwrap();
            assert_eq!(res, "This is a test string");
        }
        {
            let res = channel.read_string_until(&mut buffer, "\r\n").unwrap();
            assert_eq!(res, "More Data");
        }
    }
    {
        let mut channel = StringChannel::new("This is a test string");
        let res = channel.read_string_until(&mut buffer, "\r\n");
        assert_eq!(res.err().unwrap(), ChannelError::EndOfStream);
    }
    {
        let mut channel = StringChannel::new("This is a test string\r\n");
        let res = channel.read_string_until(&mut small_buffer, "\r\n");
        assert_eq!(res.err().unwrap(), ChannelError::BufferFull);
    }
}

#[test]
fn partial_delimiter_is_not_replayed() {
    // A lone carriage return that is not followed by a line feed breaks
    // the partial delimiter match instead of being treated as data.
    let mut buffer = vec![0u8; 128];
    let mut channel = StringChannel::new("abc\rdef\r\n");
    let res = channel.read_string_until(&mut buffer, "\r\n");
    assert_eq!(res.err().unwrap(), ChannelError::InvalidDelimiterChar);
}

#[test]
fn read_to_end_counts_bytes() {
    let mut buffer = vec![0u8; 16];
    let mut channel = StringChannel::new("abc");
    let n = channel.read_to_end(&mut buffer, 16).unwrap();
    assert_eq!(n, 3);
    assert_eq!(&buffer[0..3], b"abc");
}

#[test]
fn read_string_until_leaves_channel_after_delimiter() {
    // The consumed delimiter is not replayed: the next read starts
    // exactly after it.
    let mut buffer = vec![0u8; 32];
    let mut channel = StringChannel::new("one two");
    let first = channel.read_string_until(&mut buffer, " ").unwrap();
    assert_eq!(first, "one");
    let rest = channel.read_string_to_end(&mut buffer).unwrap();
    assert_eq!(rest, "two");
}
