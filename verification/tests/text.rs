use systems_project::command::{parse_command, parse_command_bytes, Command};
use systems_project::memory_manager::allocated_block::{AllocatedBlock, DataMemoryBlock};
use systems_project::memory_manager::free_block::FreeBlock;
use systems_project::memory_manager::free_table::{coalesce, release, reserve};
use systems_project::memory_manager::memory_block::MemoryBlock;
use systems_project::memory_manager::report::{
    format_allocated_line, format_free_line, format_read_line,
};
use systems_project::memory_manager::sorting::sort_pairs;
use systems_project::memory_manager::{AllocationFailure, MemoryManager};
use systems_project::text::{
    format_address, format_decimal, is_space_byte, join_words, parse_number, split_words,
    strip_end, to_upper, ParseError,
};
use systems_project::{parse_data, parse_data_bytes};

fn run(manager: &mut MemoryManager, line: &str) -> Vec<String> {
    let output = manager.execute_command(line);
    assert!(!output.exit);
    output.lines
}

#[test]
fn payload_of_text_is_its_bytes() {
    assert_eq!(parse_data("Hello"), Ok(b"Hello".to_vec()));
    assert_eq!(parse_data(""), Ok(Vec::new()));
    assert_eq!(parse_data("0"), Ok(b"0".to_vec()));
    assert_eq!(parse_data("x0 41"), Ok(b"x0 41".to_vec()));
    assert_eq!(parse_data(" 0x41"), Ok(b" 0x41".to_vec()));
    assert_eq!(parse_data("h\u{e9}"), Ok(vec![b'h', 0xC3, 0xA9]));
}

#[test]
fn payload_behind_0x_is_read_as_hexadecimal_bytes() {
    assert_eq!(parse_data("0x48 65 6C 6c 6F"), Ok(b"Hello".to_vec()));
    assert_eq!(parse_data("0X48 65"), Ok(vec![0x48, 0x65]));
    assert_eq!(parse_data("0x 1 02 \t 003\n+4"), Ok(vec![1, 2, 3, 4]));
    assert_eq!(parse_data("0x"), Ok(Vec::new()));
    assert_eq!(parse_data("0xff FF 0"), Ok(vec![255, 255, 0]));
    assert_eq!(parse_data_bytes(b"0xDE AD be ef"), Ok(vec![0xDE, 0xAD, 0xBE, 0xEF]));
}

#[test]
fn payload_with_a_word_that_is_no_byte_is_refused() {
    assert_eq!(parse_data("0x48 zz"), Err(ParseError::InvalidData));
    assert_eq!(parse_data("0x100"), Err(ParseError::InvalidData));
    assert_eq!(parse_data("0x48 0x65"), Err(ParseError::InvalidData));
    assert_eq!(parse_data("0x-1"), Err(ParseError::InvalidData));
    assert_eq!(parse_data("0x+"), Err(ParseError::InvalidData));
    assert_eq!(parse_data("0x4_1"), Err(ParseError::InvalidData));
}

#[test]
fn numbers_are_read_as_the_machine_reads_them() {
    assert_eq!(parse_number(b"0", 10, usize::MAX), Some(0));
    assert_eq!(parse_number(b"+17", 10, usize::MAX), Some(17));
    assert_eq!(parse_number(b"0042", 10, usize::MAX), Some(42));
    assert_eq!(parse_number(b"", 10, usize::MAX), None);
    assert_eq!(parse_number(b"+", 10, usize::MAX), None);
    assert_eq!(parse_number(b"-1", 10, usize::MAX), None);
    assert_eq!(parse_number(b"++1", 10, usize::MAX), None);
    assert_eq!(parse_number(b"12a", 10, usize::MAX), None);
    assert_eq!(parse_number(b"1 ", 10, usize::MAX), None);
    assert_eq!(parse_number(b"ff", 16, 255), Some(255));
    assert_eq!(parse_number(b"Fe", 16, 255), Some(254));
    assert_eq!(parse_number(b"100", 16, 255), None);
    assert_eq!(parse_number(b"g", 16, 255), None);
    assert_eq!(parse_number(b"z", 36, 255), Some(35));
    let max = usize::MAX.to_string();
    assert_eq!(parse_number(max.as_bytes(), 10, usize::MAX), Some(usize::MAX));
    let beyond = format!("{}0", max);
    assert_eq!(parse_number(beyond.as_bytes(), 10, usize::MAX), None);
    let above = format!("{}", usize::MAX as u128 + 1);
    assert_eq!(parse_number(above.as_bytes(), 10, usize::MAX), None);
    for n in [0usize, 9, 10, 255, 256, 65535, 65536, 123456789] {
        assert_eq!(parse_number(n.to_string().as_bytes(), 10, usize::MAX), Some(n));
        assert_eq!(
            "12".parse::<usize>().ok(),
            parse_number(b"12", 10, usize::MAX)
        );
        assert_eq!(
            usize::from_str_radix(&format!("{:x}", n), 16).ok(),
            parse_number(format!("{:x}", n).as_bytes(), 16, usize::MAX)
        );
    }
}

#[test]
fn numbers_are_written_in_digits() {
    assert_eq!(format_decimal(0), "0");
    assert_eq!(format_decimal(7), "7");
    assert_eq!(format_decimal(10), "10");
    assert_eq!(format_decimal(65536), "65536");
    assert_eq!(format_decimal(usize::MAX), usize::MAX.to_string());
    assert_eq!(format_address(0), "0x0000");
    assert_eq!(format_address(10), "0x000A");
    assert_eq!(format_address(255), "0x00FF");
    assert_eq!(format_address(4096), "0x1000");
    assert_eq!(format_address(65535), "0xFFFF");
    assert_eq!(format_address(65536), "0x10000");
    for n in [1usize, 15, 16, 0xABC, 0xBEEF, 0x12345, 99999] {
        assert_eq!(format_address(n), format!("0x{:04X}", n));
        assert_eq!(format_decimal(n), format!("{}", n));
    }
}

#[test]
fn words_are_split_at_spaces() {
    assert_eq!(
        split_words(b"  insert\t5  hello world\r\n"),
        vec![
            b"insert".to_vec(),
            b"5".to_vec(),
            b"hello".to_vec(),
            b"world".to_vec()
        ]
    );
    assert_eq!(split_words(b""), Vec::<Vec<u8>>::new());
    assert_eq!(split_words(b" \t\n\x0b\x0c\r"), Vec::<Vec<u8>>::new());
    assert_eq!(split_words(b"one"), vec![b"one".to_vec()]);
    assert_eq!(split_words(b"a\x0bb"), vec![b"a".to_vec(), b"b".to_vec()]);
    assert!(is_space_byte(b' ') && is_space_byte(0x0B) && !is_space_byte(b';'));
    assert!(!is_space_byte(0x08) && !is_space_byte(0x0E) && !is_space_byte(0xA0));
    let words = split_words(b"a bb  ccc");
    assert_eq!(join_words(&words, 0), b"a bb ccc".to_vec());
    assert_eq!(join_words(&words, 1), b"bb ccc".to_vec());
    assert_eq!(join_words(&words, 2), b"ccc".to_vec());
    assert_eq!(join_words(&words, 3), Vec::<u8>::new());
}

#[test]
fn lines_are_put_in_capitals_and_trimmed() {
    assert_eq!(to_upper(b"Read 1; az{`AZ"), b"READ 1; AZ{`AZ".to_vec());
    assert_eq!(to_upper(&[0xC3, 0xA9]), vec![0xC3, 0xA9]);
    let mut line = b"DUMP;; \t".to_vec();
    strip_end(&mut line);
    assert_eq!(line, b"DUMP".to_vec());
    let mut line = b"DUMP ;".to_vec();
    strip_end(&mut line);
    assert_eq!(line, b"DUMP ".to_vec());
    let mut line = b"; ;".to_vec();
    strip_end(&mut line);
    assert_eq!(line, b"; ".to_vec());
    let mut line = b" \n".to_vec();
    strip_end(&mut line);
    assert_eq!(line, Vec::<u8>::new());
}

#[test]
fn pairs_are_sorted() {
    let mut pairs = vec![(3, 1), (1, 9), (2, 2), (1, 3), (3, 0), (1, 3)];
    sort_pairs(&mut pairs);
    assert_eq!(pairs, vec![(1, 3), (1, 3), (1, 9), (2, 2), (3, 0), (3, 1)]);
    let mut none: Vec<(usize, usize)> = Vec::new();
    sort_pairs(&mut none);
    assert!(none.is_empty());
}

#[test]
fn commands_are_read_in_any_case() {
    assert_eq!(
        parse_command("INSERT 5 hello"),
        Ok(Command::Insert {
            size: 5,
            data: b"hello".to_vec()
        })
    );
    assert_eq!(
        parse_command("  insert   12   two  Words ;"),
        Ok(Command::Insert {
            size: 12,
            data: b"two Words".to_vec()
        })
    );
    assert_eq!(
        parse_command("Insert 4 0x48 65 6c 6C;"),
        Ok(Command::Insert {
            size: 4,
            data: b"Hell".to_vec()
        })
    );
    assert_eq!(parse_command("read 3"), Ok(Command::Read { id: 3 }));
    assert_eq!(parse_command("READ +3 and more"), Ok(Command::Read { id: 3 }));
    assert_eq!(parse_command("Delete 0;"), Ok(Command::Delete { id: 0 }));
    assert_eq!(
        parse_command("update 1 0X00 ff"),
        Ok(Command::Update {
            id: 1,
            data: vec![0, 255]
        })
    );
    assert_eq!(parse_command("dump"), Ok(Command::Dump));
    assert_eq!(parse_command("DUMP;;;"), Ok(Command::Dump));
    assert_eq!(parse_command("dump everything"), Ok(Command::Dump));
    assert_eq!(parse_command("Exit"), Ok(Command::Exit));
    assert_eq!(parse_command_bytes(b"exit \t;"), Ok(Command::Exit));
}

#[test]
fn payloads_keep_their_letters() {
    let mut manager = MemoryManager::new();
    assert_eq!(run(&mut manager, "insert 4 abcd;"), vec!["INSERT success: ID = 0"]);
    let block = manager.read(0).unwrap();
    assert_eq!((block.size, block.data_size), (4, 4));
    assert_eq!(block.data, b"abcd".to_vec());
    assert_eq!(run(&mut manager, "INSERT 4 abcd"), vec!["INSERT success: ID = 1"]);
    assert_eq!(manager.read(1).unwrap().data, b"abcd".to_vec());
    assert_eq!(run(&mut manager, "InSeRt 8 MiXed Up"), vec!["INSERT success: ID = 2"]);
    assert_eq!(manager.read(2).unwrap().data, b"MiXed Up".to_vec());
    assert_eq!(run(&mut manager, "uPdAtE 2 aBc"), vec!["UPDATE success: ID = 2"]);
    assert_eq!(manager.read(2).unwrap().data, b"aBc".to_vec());
    assert_eq!(
        parse_command("update 7 insert READ;"),
        Ok(Command::Update {
            id: 7,
            data: b"insert READ".to_vec()
        })
    );
    assert_eq!(
        parse_command("Insert 3 0xaB 0xC"),
        Err(ParseError::InvalidData)
    );
    assert_eq!(
        parse_command("Insert 3 0xaB Cd 0e"),
        Ok(Command::Insert {
            size: 3,
            data: vec![0xAB, 0xCD, 0x0E]
        })
    );
    assert_eq!(
        parse_command("insert 2 0Xff 1"),
        Ok(Command::Insert {
            size: 2,
            data: vec![255, 1]
        })
    );
}

#[test]
fn lines_that_name_no_command_are_refused() {
    assert_eq!(parse_command(""), Err(ParseError::UnknownCommand));
    assert_eq!(parse_command("   "), Err(ParseError::UnknownCommand));
    assert_eq!(parse_command(";"), Err(ParseError::UnknownCommand));
    assert_eq!(parse_command("STORE 1 x"), Err(ParseError::UnknownCommand));
    assert_eq!(parse_command("INSERT"), Err(ParseError::UnknownCommand));
    assert_eq!(parse_command("INSERT 5"), Err(ParseError::UnknownCommand));
    assert_eq!(parse_command("UPDATE 5"), Err(ParseError::UnknownCommand));
    assert_eq!(parse_command("READ"), Err(ParseError::UnknownCommand));
    assert_eq!(parse_command("DELETE;"), Err(ParseError::UnknownCommand));
    assert_eq!(parse_command("DUMPS"), Err(ParseError::UnknownCommand));
    assert_eq!(parse_command("READ x"), Err(ParseError::InvalidNumber));
    assert_eq!(parse_command("READ -1"), Err(ParseError::InvalidNumber));
    assert_eq!(parse_command("DELETE 1.5"), Err(ParseError::InvalidNumber));
    assert_eq!(parse_command("INSERT five abc"), Err(ParseError::InvalidNumber));
    assert_eq!(
        parse_command("UPDATE 99999999999999999999999 abc"),
        Err(ParseError::InvalidNumber)
    );
    assert_eq!(parse_command("INSERT 5 0x4g"), Err(ParseError::InvalidData));
    assert_eq!(parse_command("UPDATE 5 0x1 0x2"), Err(ParseError::InvalidData));
    assert_eq!(parse_command("INSERT x 0xzz"), Err(ParseError::InvalidNumber));
}

#[test]
fn lines_are_written_as_the_protocol_says() {
    assert_eq!(
        format_read_line(0, 4, 5, "Hello"),
        "READ data: Start Address: 0x0000, End Address: 0x0004, Status: Allocated, Size: 5 bytes, Data: 'Hello'"
    );
    assert_eq!(
        format_allocated_line(32768, 33791, 12, 1024, "x y"),
        "0x8000 - 0x83FF: ALLOCATED (ID: 12) (Size: 1024 bytes) Data: 'x y'"
    );
    assert_eq!(
        format_free_line(1024, 2047, 1024),
        "0x0400 - 0x07FF: FREE (Size: 1024 bytes)"
    );
}

#[test]
fn a_block_is_shown_with_its_text() {
    let mut manager = MemoryManager::new();
    manager.allocate(8).unwrap();
    let id = manager.allocate(5).unwrap();
    manager.set(id, b"Hello").unwrap();
    assert_eq!(
        manager.read_formatted(id).unwrap(),
        "READ data: Start Address: 0x8000, End Address: 0x8004, Status: Allocated, Size: 5 bytes, Data: 'Hello'"
    );
    manager.set(id, &[b'a', 0xFF, b'b']).unwrap();
    assert_eq!(
        manager.read_formatted(id).unwrap(),
        "READ data: Start Address: 0x8000, End Address: 0x8002, Status: Allocated, Size: 3 bytes, Data: 'a\u{FFFD}b'"
    );
    manager.set(id, &[0xC3, 0xA9]).unwrap();
    assert!(manager.read_formatted(id).unwrap().ends_with("Data: '\u{e9}'"));
    manager.set(id, b"").unwrap();
    assert_eq!(
        manager.read_formatted(id).unwrap(),
        "READ data: Start Address: 0x8000, End Address: 0x7FFF, Status: Allocated, Size: 0 bytes, Data: ''"
    );
    manager.set(0, b"").unwrap();
    assert_eq!(
        manager.read_formatted(0).unwrap(),
        "READ data: Start Address: 0x0000, End Address: 0x0000, Status: Allocated, Size: 0 bytes, Data: ''"
    );
    assert!(manager.read_formatted(7).is_err());
}

#[test]
fn a_dump_is_shown_line_by_line() {
    let mut manager = MemoryManager::new();
    let a = manager.allocate(16384).unwrap();
    let b = manager.allocate(32768).unwrap();
    manager.set(a, b"first").unwrap();
    manager.set(b, &[b'n', b'o', 0x80]).unwrap();
    assert_eq!(
        manager.dump_lines(),
        vec![
            "Memory Dump:",
            "0x0000 - 0x3FFF: ALLOCATED (ID: 0) (Size: 16384 bytes) Data: 'first'",
            "0x8000 - 0xFFFF: ALLOCATED (ID: 1) (Size: 32768 bytes) Data: 'no\u{FFFD}'",
            "0x4000 - 0x7FFF: FREE (Size: 16384 bytes)",
        ]
    );
}

#[test]
fn commands_are_carried_out_and_answered() {
    let mut manager = MemoryManager::new();
    assert_eq!(run(&mut manager, "INSERT 5 hello"), vec!["INSERT success: ID = 0"]);
    assert_eq!(
        run(&mut manager, "read 0;"),
        vec!["READ data: Start Address: 0x0000, End Address: 0x0004, Status: Allocated, Size: 5 bytes, Data: 'hello'"]
    );
    assert_eq!(
        run(&mut manager, "insert 2 0x68 69"),
        vec!["INSERT success: ID = 1"]
    );
    assert_eq!(manager.read(1).unwrap().data, b"hi".to_vec());
    assert_eq!(run(&mut manager, "UPDATE 0 bye"), vec!["UPDATE success: ID = 0"]);
    assert_eq!(manager.read(0).unwrap().data, b"bye".to_vec());
    assert_eq!(
        run(&mut manager, "UPDATE 0 much longer than eight"),
        vec!["UPDATE success: ID = 2"]
    );
    assert_eq!(run(&mut manager, "READ 0"), vec!["Error reading data"]);
    assert_eq!(run(&mut manager, "UPDATE 0 x"), vec!["Error updating data"]);
    assert_eq!(run(&mut manager, "DELETE 0"), vec!["Error deleting data"]);
    assert_eq!(run(&mut manager, "DELETE 1"), vec!["DELETE success: ID = 1"]);
    assert_eq!(
        run(&mut manager, "DUMP"),
        vec![
            "Memory Dump:",
            "0x4000 - 0x401F: ALLOCATED (ID: 2) (Size: 32 bytes) Data: 'much longer than eight'",
            "0x4020 - 0x403F: FREE (Size: 32 bytes)",
            "0x4040 - 0x407F: FREE (Size: 64 bytes)",
            "0x4080 - 0x40FF: FREE (Size: 128 bytes)",
            "0x4100 - 0x41FF: FREE (Size: 256 bytes)",
            "0x4200 - 0x43FF: FREE (Size: 512 bytes)",
            "0x4400 - 0x47FF: FREE (Size: 1024 bytes)",
            "0x4800 - 0x4FFF: FREE (Size: 2048 bytes)",
            "0x5000 - 0x5FFF: FREE (Size: 4096 bytes)",
            "0x6000 - 0x7FFF: FREE (Size: 8192 bytes)",
            "0x0000 - 0x3FFF: FREE (Size: 16384 bytes)",
            "0x8000 - 0xFFFF: FREE (Size: 32768 bytes)",
        ]
    );
}

#[test]
fn commands_that_fail_are_answered_and_change_nothing() {
    let mut manager = MemoryManager::new();
    run(&mut manager, "INSERT 4 abcd");
    let before = manager.dump();
    assert_eq!(
        run(&mut manager, "INSERT 0 abcd"),
        vec!["INSERT error: No suitable block available"]
    );
    assert_eq!(
        run(&mut manager, "INSERT 70000 abcd"),
        vec!["INSERT error: No suitable block available"]
    );
    assert_eq!(run(&mut manager, "INSERT 4"), vec!["Unknown or invalid command"]);
    assert_eq!(run(&mut manager, "INSERT four abcd"), vec!["Unknown or invalid command"]);
    assert_eq!(run(&mut manager, "UPDATE 0 0xZZ"), vec!["Unknown or invalid command"]);
    assert_eq!(run(&mut manager, "READ zero"), vec!["Unknown or invalid command"]);
    assert_eq!(run(&mut manager, "FROBNICATE"), vec!["Unknown or invalid command"]);
    assert_eq!(run(&mut manager, ""), vec!["Unknown or invalid command"]);
    assert_eq!(manager.dump(), before);
    // A payload that does not fit leaves the block that was allocated for it.
    assert_eq!(run(&mut manager, "INSERT 2 abcdefgh"), vec!["Error storing data"]);
    let left = manager.read(1).unwrap();
    assert_eq!((left.size, left.data_size), (2, 2));
}

#[test]
fn exit_stops_the_reading() {
    let mut manager = MemoryManager::new();
    let output = manager.execute_command("exit;");
    assert!(output.exit);
    assert_eq!(output.lines, vec!["Exiting..."]);
    let output = manager.execute(Command::Dump);
    assert!(!output.exit);
    assert_eq!(output.lines.len(), 2);
}

#[test]
fn blocks_describe_themselves() {
    let free = FreeBlock::new(1024, 512);
    assert_eq!(free.get_start(), 1024);
    assert_eq!(free.get_size(), 512);
    assert!(free.is_free);
    assert_eq!(free.describe(), "FreeBlock: start=1024, size=512");
    let mut manager = MemoryManager::new();
    manager.allocate(3000).unwrap();
    let id = manager.allocate(3).unwrap();
    manager.set(id, b"ab").unwrap();
    let mut block: AllocatedBlock = manager.read(id).unwrap();
    assert_eq!(
        block.describe(),
        "AllocatedBlock: start=32768, size=4, id=1, data_size=2"
    );
    assert_eq!(block.get_start(), 32768);
    assert_eq!(block.get_size(), 4);
    assert_eq!(block.get_id(), 1);
    assert_eq!(block.get_data_size(), 2);
    assert_eq!(DataMemoryBlock::get_end(&block), 32769);
    assert_eq!(block.get_data(), b"ab");
    block.clear_data();
    assert_eq!(block.get_data(), b"");
    block.set_data_size(1);
    assert_eq!(block.get_data_size(), 1);
    assert_eq!(DataMemoryBlock::get_end(&block), 32768);
    let fresh = AllocatedBlock::new(8, 16, 3, 9);
    assert_eq!((fresh.start, fresh.size, fresh.id, fresh.data_size), (8, 16, 3, 9));
    assert!(fresh.data.is_empty());
}

#[test]
fn a_memory_block_holds_what_it_was_given() {
    let mut block = MemoryBlock::new(64, 32);
    assert_eq!(block.get_start(), 64);
    assert_eq!(block.get_size(), 32);
    assert!(block.is_free);
    assert_eq!(block.get_data(), b"");
    block.allocate(b"data".to_vec());
    assert!(!block.is_free);
    assert_eq!(block.get_data(), b"data");
    block.deallocate();
    assert!(block.is_free);
    assert_eq!(block.get_data(), b"");
    assert_eq!((block.start, block.size), (64, 32));
}

#[test]
fn the_free_table_serves_and_takes_back() {
    let mut table = vec![FreeBlock::new(0, 65536)];
    let block = reserve(&mut table, 20000).unwrap();
    assert_eq!((block.start, block.size, block.is_free), (0, 32768, false));
    assert_eq!(table, vec![FreeBlock::new(32768, 32768)]);
    assert_eq!(reserve(&mut table, 40000), Err(AllocationFailure::NoSpace));
    assert_eq!(reserve(&mut table, 0), Err(AllocationFailure::InvalidSize));
    assert_eq!(reserve(&mut table, 65537), Err(AllocationFailure::TooLarge));
    assert_eq!(table, vec![FreeBlock::new(32768, 32768)]);
    let small = reserve(&mut table, 8192).unwrap();
    assert_eq!((small.start, small.size), (32768, 8192));
    assert_eq!(
        table,
        vec![FreeBlock::new(49152, 16384), FreeBlock::new(40960, 8192)]
    );
    release(&mut table, FreeBlock::new(0, 32768));
    assert_eq!(
        table,
        vec![
            FreeBlock::new(0, 32768),
            FreeBlock::new(40960, 8192),
            FreeBlock::new(49152, 16384)
        ]
    );
    release(&mut table, small);
    assert_eq!(table, vec![FreeBlock::new(0, 65536)]);
    let mut table = vec![
        FreeBlock::new(24, 8),
        FreeBlock::new(0, 8),
        FreeBlock::new(16, 8),
        FreeBlock::new(40, 8),
        FreeBlock::new(8, 8),
    ];
    coalesce(&mut table);
    assert_eq!(table, vec![FreeBlock::new(0, 32), FreeBlock::new(40, 8)]);
}
