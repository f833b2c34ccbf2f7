use llm_samplers::configure::{
    same_text, HasSamplerMetadata, SamplerOptionMetadata, SamplerOptionType, SamplerOptionValue,
    SamplerOptionValueMut, SamplerOptions,
};
use llm_samplers::fixed::Fixed;
use llm_samplers::samplers::top_p::SampleTopP;

fn fx(raw: i64) -> Fixed {
    Fixed::from_raw(raw)
}

#[test]
fn top_p_metadata_names_the_sampler() {
    let sampler = SampleTopP::new(fx(900_000_000), 1);
    let md = sampler.sampler_metadata();
    assert_eq!(md.name, "top-p");
    assert_eq!(
        md.description,
        Some(
            "This sampler adds up the token probabilities until the value is greater or equal to p and at least min_keep tokens have been encountered. The remaining tokens are eliminated."
        )
    );
}

#[test]
fn top_p_metadata_lists_p_then_min_keep() {
    let sampler = SampleTopP::new(fx(900_000_000), 1);
    let md = sampler.sampler_metadata();
    assert_eq!(md.options.len(), 2);
    assert_eq!(md.options[0].key, "p");
    assert_eq!(md.options[0].description, Some("Target value for cumulative probabilities."));
    assert_eq!(md.options[0].option_type, SamplerOptionType::Float);
    assert_eq!(md.options[1].key, "min_keep");
    assert_eq!(
        md.options[1].description,
        Some("Minimum number of tokens to keep after sampling. Setting this to 0 is not recommended.")
    );
    assert_eq!(md.options[1].option_type, SamplerOptionType::UInt);
}

#[test]
fn top_p_options_follow_the_metadata() {
    let sampler = SampleTopP::new(fx(250_000_000), 7);
    let md = sampler.sampler_metadata();
    let opts = sampler.sampler_options();
    assert_eq!(opts.len(), md.options.len());
    for (slot, described) in opts.options.iter().zip(md.options.iter()) {
        assert_eq!(&slot.0, described);
    }
    assert_eq!(opts.options[0].1, Some(SamplerOptionValue::Float(fx(250_000_000))));
    assert_eq!(opts.options[1].1, Some(SamplerOptionValue::UInt(7)));
}

#[test]
fn top_p_mutable_options_follow_the_metadata() {
    let mut sampler = SampleTopP::new(fx(250_000_000), 7);
    let md = sampler.sampler_metadata();
    let opts = sampler.sampler_options_mut();
    assert_eq!(opts.len(), 2);
    for (slot, described) in opts.options.iter().zip(md.options.iter()) {
        assert_eq!(&slot.0, described);
    }
    assert!(matches!(opts.options[0].1, Some(SamplerOptionValueMut::Float(_))));
    assert!(matches!(opts.options[1].1, Some(SamplerOptionValueMut::UInt(_))));
}

#[test]
fn top_p_mutable_options_write_through() {
    let mut sampler = SampleTopP::new(fx(250_000_000), 7);
    {
        let opts = sampler.sampler_options_mut();
        for (_, slot) in opts.options {
            match slot {
                Some(SamplerOptionValueMut::Float(p)) => {
                    assert_eq!(*p, fx(250_000_000));
                    *p = fx(600_000_000);
                }
                Some(SamplerOptionValueMut::UInt(n)) => {
                    assert_eq!(*n, 7);
                    *n = 2;
                }
                None => panic!("every slot of this sampler has an accessor"),
            }
        }
    }
    assert_eq!(sampler, SampleTopP::new(fx(600_000_000), 2));
    let opts = sampler.sampler_options();
    assert_eq!(opts.options[0].1, Some(SamplerOptionValue::Float(fx(600_000_000))));
    assert_eq!(opts.options[1].1, Some(SamplerOptionValue::UInt(2)));
}

#[test]
fn options_are_found_by_key() {
    let sampler = SampleTopP::new(fx(250_000_000), 7);
    let opts = sampler.sampler_options();
    assert_eq!(opts.position_of("p"), Some(0));
    assert_eq!(opts.position_of("min_keep"), Some(1));
    assert_eq!(opts.position_of("min_kee"), None);
    assert_eq!(opts.position_of("min_keep "), None);
    assert_eq!(opts.position_of("P"), None);
    assert_eq!(opts.position_of(""), None);
}

#[test]
fn options_set_by_key() {
    let mut sampler = SampleTopP::new(fx(250_000_000), 7);
    {
        let mut opts = sampler.sampler_options_mut();
        let at = opts.position_of("min_keep").unwrap();
        match &mut opts.options[at].1 {
            Some(SamplerOptionValueMut::UInt(n)) => **n = 4,
            _ => panic!("min_keep is an unsigned integer"),
        }
    }
    assert_eq!(sampler, SampleTopP::new(fx(250_000_000), 4));
}

#[test]
fn first_of_several_equal_keys_is_found() {
    let described = |key: &'static str| SamplerOptionMetadata {
        key,
        description: None,
        option_type: SamplerOptionType::UInt,
    };
    let opts: SamplerOptions<SamplerOptionValue<Fixed>> = SamplerOptions {
        options: vec![
            (described("a"), None),
            (described("b"), Some(SamplerOptionValue::UInt(1))),
            (described("b"), Some(SamplerOptionValue::UInt(2))),
        ],
    };
    assert_eq!(opts.len(), 3);
    assert_eq!(opts.position_of("b"), Some(1));
    assert_eq!(opts.position_of("a"), Some(0));
    assert_eq!(opts.position_of("c"), None);
}

#[test]
fn same_text_compares_characters() {
    assert!(same_text("", ""));
    assert!(same_text("top-p", "top-p"));
    assert!(!same_text("top-p", "top-k"));
    assert!(!same_text("top", "top-p"));
    assert!(!same_text("top-p", "top"));
    assert!(same_text("\u{e9}t\u{e9}", "\u{e9}t\u{e9}"));
    assert!(!same_text("\u{e9}", "e"));
}
