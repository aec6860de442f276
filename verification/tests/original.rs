use insndec::{decode, parse_insn};

#[test]
fn test_lldb() {
    let text = "0x3a6 <+22>: fea42623                 sw     a0, -0x14(s0)
    0x3aa <+26>: 0940003f 00200020               
    0x3b2 <+34>: 021f 0000 1000                  
    0x3b8 <+40>: 084f940b                        
    0x3bc <+44>: b8f2                            
    0x3be <+46>: 084f940b                        
    0x3c2 <+50>: b8f2                            
    0x3c4 <+52>: ff042503                 lw     a0, -0x10(s0) ";

    for (i, line) in text.lines().enumerate() {
        if let Ok(data) = parse_insn(&line.to_owned()) {
            println!("{i}: {}", decode(data.0, data.1).unwrap().render().unwrap());
            assert!(if [1, 2, 3, 4, 5, 6].iter().find(|x| **x == i).is_some() {
                true
            } else {
                false
            });
        } else {
            println!("{line}");
        }
    }
}

#[test]
fn test_llvm() {
    let text = "
     3a6: fea42623     	sw	a0, -0x14(s0)
     3aa: 0940003f 00200020    	<unknown>
     3b2: 021f 0000 1000       	<unknown>
     3b8: 084f940b     	<unknown>
     3bc: b8f2         	fsd	ft8, 0x70(sp)
     3be: 084f940b     	<unknown>
     3c2: b8f2         	fsd	ft8, 0x70(sp)
     3c4: ff042503     	lw	a0, -0x10(s0)";

    for (i, line) in text.lines().enumerate() {
        if let Ok(data) = parse_insn(&line.to_owned()) {
            println!("{i}:  {}", decode(data.0, data.1).unwrap().render().unwrap());
            assert!(if [2, 3, 4, 6].iter().find(|x| **x == i).is_some() {
                true
            } else {
                false
            });
        } else {
            println!("{line}");
        }
    }
}
